use pur::error::{ExecuteError, ParseError};
use pur::handle::{build, install, remove, search_lists, update};
use pur::package::Package;
use pur::repo::{get_repositories, Repo};
use pur::session::{DirEntry, EntryKind, Failure, FailureKind, Reply, Request, Session};
use pur::structure::{FileStructure, InstallFileStructure};
use std::collections::BTreeMap;

#[derive(Clone, Debug, PartialEq)]
enum Node {
    Dir,
    File(String),
    Link(String),
}

/// A file system in memory, with install scripts that create the files that
/// their text lists.
struct Host {
    nodes: BTreeMap<String, Node>,
    cwd: String,
    packages: Vec<Package>,
    installs: Vec<String>,
    dangling: usize,
    updated: Vec<String>,
}

fn norm(path: &str) -> String {
    let trimmed = path.trim_end_matches('/');
    if trimmed.is_empty() {
        "/".to_string()
    } else {
        trimmed.to_string()
    }
}

fn parent(path: &str) -> String {
    match path.rfind('/') {
        Some(0) | None => "/".to_string(),
        Some(i) => path[..i].to_string(),
    }
}

fn not_found(path: &str) -> Reply {
    Reply::Failed(Failure { kind: FailureKind::NotFound, message: format!("{}: not found", path) })
}

impl Host {
    fn new() -> Host {
        let mut nodes = BTreeMap::new();
        nodes.insert("/".to_string(), Node::Dir);
        Host { nodes, cwd: "/".to_string(), packages: Vec::new(), installs: Vec::new(), dangling: 0, updated: Vec::new() }
    }

    fn mkdir(&mut self, path: &str) {
        let path = norm(path);
        let mut at = String::new();
        for part in path.split('/').filter(|p| !p.is_empty()) {
            at.push('/');
            at.push_str(part);
            self.nodes.entry(at.clone()).or_insert(Node::Dir);
        }
    }

    fn write(&mut self, path: &str, text: &str) {
        self.mkdir(&parent(path));
        self.nodes.insert(path.to_string(), Node::File(text.to_string()));
    }

    fn package(&mut self, repo: &str, name: &str, version: &str, depends: &str, script: &str) {
        let dir = format!("{}/{}", repo, name);
        self.write(&format!("{}/version", dir), version);
        self.write(&format!("{}/depends", dir), depends);
        self.write(&format!("{}/install", dir), script);
    }

    fn has(&self, path: &str) -> bool {
        self.nodes.contains_key(&norm(path))
    }

    fn text(&self, path: &str) -> Option<String> {
        match self.nodes.get(path) {
            Some(Node::File(t)) => Some(t.clone()),
            _ => None,
        }
    }

    fn links_below(&self, dir: &str) -> Vec<String> {
        let prefix = format!("{}/", norm(dir));
        self.nodes
            .iter()
            .filter(|(p, n)| p.starts_with(&prefix) && matches!(n, Node::Link(_)))
            .map(|(p, _)| p.clone())
            .collect()
    }

    fn watch(&mut self) {
        for node in self.nodes.values() {
            if let Node::Link(target) = node {
                if !self.nodes.contains_key(target) {
                    self.dangling += 1;
                }
            }
        }
    }

    fn find(&self, name: &str) -> Package {
        self.packages.iter().find(|p| p.name == name).unwrap().clone()
    }

    fn perform(&mut self, request: &Request) -> Reply {
        let reply = self.answer(request);
        self.watch();
        reply
    }

    fn answer(&mut self, request: &Request) -> Reply {
        match request {
            Request::Exists(path) => Reply::Flag(self.has(path)),
            Request::CreateDirAll(path) => {
                let mut at = String::new();
                for part in norm(path).split('/').filter(|p| !p.is_empty()) {
                    at.push('/');
                    at.push_str(part);
                    if matches!(self.nodes.get(&at), Some(Node::File(_)) | Some(Node::Link(_))) {
                        return Reply::Failed(Failure { kind: FailureKind::AlreadyExists, message: at });
                    }
                }
                self.mkdir(path);
                Reply::Done
            }
            Request::RemoveDirAll(path) => {
                let path = norm(path);
                if !self.nodes.contains_key(&path) {
                    return not_found(&path);
                }
                let prefix = format!("{}/", path);
                self.nodes.retain(|p, _| p != &path && !p.starts_with(&prefix));
                Reply::Done
            }
            Request::RemoveFile(path) => match self.nodes.get(path) {
                Some(Node::File(_)) | Some(Node::Link(_)) => {
                    self.nodes.remove(path);
                    Reply::Done
                }
                _ => not_found(path),
            },
            Request::Copy(from, to) => {
                if !self.nodes.contains_key(from) {
                    return not_found(from);
                }
                if !self.has(&parent(to)) {
                    return not_found(to);
                }
                let prefix = format!("{}/", from);
                let copies: Vec<(String, Node)> = self
                    .nodes
                    .iter()
                    .filter(|(p, _)| *p == from || p.starts_with(&prefix))
                    .map(|(p, n)| (format!("{}{}", to, &p[from.len()..]), n.clone()))
                    .collect();
                self.nodes.extend(copies);
                Reply::Done
            }
            Request::Symlink(original, link) => {
                if self.nodes.contains_key(link) {
                    return Reply::Failed(Failure { kind: FailureKind::AlreadyExists, message: link.clone() });
                }
                match self.nodes.get(&parent(link)) {
                    Some(Node::Dir) => {}
                    Some(_) => {
                        return Reply::Failed(Failure {
                            kind: FailureKind::Other,
                            message: format!("{}: not a directory", parent(link)),
                        })
                    }
                    None => return not_found(link),
                }
                self.nodes.insert(link.clone(), Node::Link(original.clone()));
                Reply::Done
            }
            Request::ReadDir(path) => {
                let path = norm(path);
                if self.nodes.get(&path) != Some(&Node::Dir) {
                    return not_found(&path);
                }
                let entries = self
                    .nodes
                    .iter()
                    .filter(|(p, _)| p.as_str() != "/" && parent(p) == path)
                    .map(|(p, n)| DirEntry {
                        path: p.clone(),
                        kind: match n {
                            Node::Dir => EntryKind::Directory,
                            Node::File(_) => EntryKind::File,
                            Node::Link(_) => EntryKind::Other,
                        },
                    })
                    .collect();
                Reply::Entries(entries)
            }
            Request::ReadFile(path) => match self.text(path) {
                Some(text) => Reply::Text(text),
                None => not_found(path),
            },
            Request::WriteFile(path, text) => {
                if !self.has(&parent(path)) {
                    return not_found(path);
                }
                self.nodes.insert(path.clone(), Node::File(text.clone()));
                Reply::Done
            }
            Request::CurrentDir => Reply::Text(self.cwd.clone()),
            Request::SetCurrentDir(path) => {
                if !self.has(path) {
                    return not_found(path);
                }
                self.cwd = path.clone();
                Reply::Done
            }
            Request::Spawn(program, args) => match self.text(program) {
                Some(script) => {
                    for line in script.lines().filter(|l| !l.is_empty()) {
                        if let Some(version) = line.strip_prefix("publish ") {
                            let name = line.split(' ').nth(1).unwrap().to_string();
                            let rest = version.split_once(' ').unwrap().1.to_string();
                            let dir = format!("{}/{}", self.cwd, name);
                            self.write(&format!("{}/version", dir), &rest);
                        } else {
                            let sandbox = args[0].clone();
                            assert_eq!(self.cwd, sandbox);
                            self.write(&format!("{}/{}", sandbox, line), "binary");
                        }
                    }
                    Reply::Done
                }
                None => not_found(program),
            },
            Request::Wait => Reply::Done,
            Request::IsBuilt(name) => {
                let package = self.find(name);
                Reply::Flag(drive(self, |s| package.is_built(s)).is_some())
            }
            Request::Build(name) => {
                let package = self.find(name);
                match drive(self, |s| package.build(s)) {
                    Ok(()) => Reply::Done,
                    Err(e) => Reply::Failed(Failure { kind: FailureKind::Other, message: e.to_string() }),
                }
            }
            Request::Install(name) => {
                let package = self.find(name);
                match drive(self, |s| package.install(s)) {
                    Ok(()) => {
                        self.installs.push(name.clone());
                        Reply::Done
                    }
                    Err(e) => Reply::Failed(Failure { kind: FailureKind::Other, message: e.to_string() }),
                }
            }
            Request::Uninstall(name) => {
                let package = self.find(name);
                match drive(self, |s| package.uninstall(s)) {
                    Ok(()) => Reply::Done,
                    Err(e) => Reply::Failed(Failure { kind: FailureKind::Other, message: e.to_string() }),
                }
            }
            Request::Update(dir, _) => {
                let package = drive(self, |s| Package::try_from(dir.clone(), s)).unwrap();
                self.updated.push(package.name.clone());
                match drive(self, |s| package.update(s)) {
                    Ok(()) => Reply::Done,
                    Err(e) => Reply::Failed(Failure { kind: FailureKind::Other, message: e.to_string() }),
                }
            }
        }
    }
}

/// Runs a procedure to its end: performs each request that it stops at and
/// runs it again on the replies so far.
fn drive<T>(host: &mut Host, mut run: impl FnMut(&mut Session) -> Option<T>) -> T {
    let mut replies: Vec<Reply> = Vec::new();
    loop {
        let mut session = Session::new(replies);
        if let Some(out) = run(&mut session) {
            return out;
        }
        let reply = host.perform(session.pending().unwrap());
        replies = session.into_replies();
        replies.push(reply);
    }
}

fn load(host: &mut Host, repo: &str) -> Vec<Package> {
    let repo = Repo::from(repo.to_string());
    let packages = drive(host, |s| repo.get_packages(s)).unwrap();
    host.packages = packages.clone();
    packages
}

fn named<'a>(packages: &'a [Package], name: &str) -> &'a Package {
    packages.iter().find(|p| p.name == name).unwrap()
}

#[test]
fn fresh_install_without_dependencies() {
    let mut host = Host::new();
    host.package("/r", "alpha", "1.0", "", "");
    let packages = load(&mut host, "/r");
    assert_eq!(packages.len(), 1);
    let out = drive(&mut host, |s| install(&packages[0], &packages, s));
    assert_eq!(out, Ok(()));
    assert!(host.has("/var/db/installed/alpha/files/usr/bin"));
    assert_eq!(host.text("/var/db/installed/alpha/version"), Some("1.0".to_string()));
    assert!(host.has("/var/db/installed/alpha/installed"));
    assert_eq!(host.text("/var/db/installed/alpha/installed"), Some(String::new()));
    assert_eq!(host.cwd, "/var/db/installed/alpha/files");
}

#[test]
fn transitive_dependencies_are_marked_in_order() {
    let mut host = Host::new();
    host.package("/r", "a", "1", "b\n", "");
    host.package("/r", "b", "1", "c\n", "");
    host.package("/r", "c", "1", "", "");
    let packages = load(&mut host, "/r");
    let out = drive(&mut host, |s| install(named(&packages, "a"), &packages, s));
    assert_eq!(out, Ok(()));
    let mut first: Vec<String> = Vec::new();
    for name in &host.installs {
        if !first.contains(name) {
            first.push(name.clone());
        }
    }
    assert_eq!(first, vec!["c".to_string(), "b".to_string(), "a".to_string()]);
    for name in ["a", "b", "c"] {
        assert!(host.has(&format!("/var/db/installed/{}/installed", name)));
    }
}

#[test]
fn missing_dependency_creates_nothing() {
    let mut host = Host::new();
    host.package("/r", "a", "1", "zzz\n", "");
    let packages = load(&mut host, "/r");
    let before = host.nodes.clone();
    let out = drive(&mut host, |s| install(&packages[0], &packages, s));
    assert_eq!(out, Err(ExecuteError::NoDependFound));
    assert_eq!(host.nodes, before);
    assert!(!host.has("/var/db/installed/a"));
}

#[test]
fn uninstall_never_leaves_a_dangling_link() {
    let mut host = Host::new();
    host.package("/r", "p", "1", "", "usr/bin/tool\nusr/bin/other\nusr/lib/data/libp.so\n");
    let packages = load(&mut host, "/r");
    assert_eq!(drive(&mut host, |s| install(&packages[0], &packages, s)), Ok(()));
    assert_eq!(
        host.links_below("/usr/bin/p"),
        vec!["/usr/bin/p/other".to_string(), "/usr/bin/p/tool".to_string()]
    );
    assert_eq!(host.links_below("/usr/lib/p"), vec!["/usr/lib/p/data/libp.so".to_string()]);
    assert_eq!(
        host.nodes.get("/usr/bin/p/tool"),
        Some(&Node::Link("/var/db/installed/p/files/usr/bin/tool".to_string()))
    );
    assert_eq!(host.dangling, 0);
    assert_eq!(drive(&mut host, |s| remove(&packages[0], s)), Ok(()));
    assert_eq!(host.dangling, 0);
    assert!(host.links_below("/usr/bin/p").is_empty());
    assert!(host.links_below("/usr/lib/p").is_empty());
    assert!(!host.has("/var/db/installed/p"));
}

#[test]
fn links_made_are_links_removed() {
    let mut host = Host::new();
    host.package("/r", "p", "1", "", "usr/bin/tool\nusr/bin/tool2\nusr/sbin/deep/er/daemon\nusr/sbin/deep/d\nusr/lib64/x\n");
    let packages = load(&mut host, "/r");
    assert_eq!(drive(&mut host, |s| build(&packages[0], &packages, s)), Ok(()));
    let structure = InstallFileStructure::new("p");
    assert_eq!(drive(&mut host, |s| structure.symlink_out_scope(s)), Ok(()));
    assert_eq!(host.links_below("/usr").len(), 5);
    for (link, file) in [
        ("/usr/bin/p/tool", "usr/bin/tool"),
        ("/usr/bin/p/tool2", "usr/bin/tool2"),
        ("/usr/sbin/p/deep/er/daemon", "usr/sbin/deep/er/daemon"),
        ("/usr/sbin/p/deep/d", "usr/sbin/deep/d"),
        ("/usr/lib64/p/x", "usr/lib64/x"),
    ] {
        assert_eq!(
            host.nodes.get(link),
            Some(&Node::Link(format!("/var/db/installed/p/files/{}", file)))
        );
    }
    assert_eq!(drive(&mut host, |s| structure.symlink_out_scope(s)), Ok(()));
    assert_eq!(host.links_below("/usr").len(), 5);
    assert_eq!(drive(&mut host, |s| structure.remove_symlinks(s)), Ok(()));
    assert!(host.links_below("/usr").is_empty());
    assert!(host.has("/var/db/installed/p/files/usr/bin/tool"));
}

#[test]
fn a_link_in_the_way_of_a_directory_is_a_link_error() {
    let mut host = Host::new();
    host.package("/r", "p", "1", "", "usr/bin/tool\n");
    host.write("/usr/bin/p", "a file where the links should be");
    let packages = load(&mut host, "/r");
    assert_eq!(drive(&mut host, |s| build(&packages[0], &packages, s)), Ok(()));
    let structure = InstallFileStructure::new("p");
    assert!(matches!(
        drive(&mut host, |s| structure.symlink_out_scope(s)),
        Err(pur::error::FileStructureError::SymLinkError(_))
    ));
    assert_eq!(drive(&mut host, |s| install(&packages[0], &packages, s)), Err(ExecuteError::CompileFail));
}

#[test]
fn move_all_copies_each_subtree_with_what_it_holds() {
    let mut host = Host::new();
    host.package("/r", "p", "1", "", "usr/bin/tool\nusr/lib/data/libp.so\n");
    let packages = load(&mut host, "/r");
    assert_eq!(drive(&mut host, |s| build(&packages[0], &packages, s)), Ok(()));
    host.mkdir("/mnt/usr");
    let target = "/mnt".to_string();
    assert_eq!(drive(&mut host, |s| packages[0].structure.move_all(&target, s)), Ok(()));
    assert!(host.has("/mnt/usr/bin/tool"));
    assert!(host.has("/mnt/usr/lib/data/libp.so"));
    assert!(host.has("/var/db/installed/p/files/usr/bin/tool"));
}

#[test]
fn create_all_twice_leaves_the_same_directories() {
    let mut host = Host::new();
    let structure = InstallFileStructure::new("p");
    assert_eq!(drive(&mut host, |s| structure.create_all(s)), Ok(()));
    let once = host.nodes.clone();
    assert_eq!(once.len(), 1 + 3 + 1 + 1 + 1 + 5);
    assert_eq!(drive(&mut host, |s| structure.create_all(s)), Ok(()));
    assert_eq!(host.nodes, once);
    assert_eq!(drive(&mut host, |s| structure.delete_all(s)), Ok(()));
    assert!(!host.has("/var/db/installed/p"));
    assert!(host.has("/var/db/installed"));
}

#[test]
fn build_records_the_version() {
    let mut host = Host::new();
    host.package("/r", "p", " 2.5\n", "", "usr/bin/tool\n");
    host.write("/var/db/installed/p/version", "old");
    let packages = load(&mut host, "/r");
    assert_eq!(drive(&mut host, |s| packages[0].build(s)), Ok(()));
    assert_eq!(host.text("/var/db/installed/p/version"), Some("2.5".to_string()));
    assert!(host.has("/var/db/installed/p/files/usr/bin/tool"));
    assert!(!host.has("/var/db/installed/p/installed"));
}

#[test]
fn build_without_an_install_script_fails() {
    let mut host = Host::new();
    host.write("/r/p/version", "1");
    host.write("/r/p/depends", "");
    let packages = load(&mut host, "/r");
    assert_eq!(drive(&mut host, |s| packages[0].build(s)), Err(ParseError::NoInstallScript));
    assert_eq!(drive(&mut host, |s| build(&packages[0], &packages, s)), Err(ExecuteError::CompileFail));
}

#[test]
fn installed_means_built_and_marked() {
    let mut host = Host::new();
    host.package("/r", "p", "1", "", "");
    let packages = load(&mut host, "/r");
    let p = &packages[0];
    assert!(drive(&mut host, |s| p.is_built(s)).is_none());
    assert!(drive(&mut host, |s| p.is_installed(s)).is_none());
    assert!(host.has("/var/db/installed"));
    assert_eq!(drive(&mut host, |s| p.build(s)), Ok(()));
    assert!(drive(&mut host, |s| p.is_built(s)).is_some());
    assert!(drive(&mut host, |s| p.is_installed(s)).is_none());
    assert_eq!(drive(&mut host, |s| p.install(s)), Ok(()));
    let built = drive(&mut host, |s| p.is_built(s));
    let installed = drive(&mut host, |s| p.is_installed(s));
    assert!(installed.is_some());
    assert_eq!(built, installed);
    assert_eq!(drive(&mut host, |s| p.uninstall(s)), Ok(()));
    assert!(drive(&mut host, |s| p.is_installed(s)).is_none());
    assert_eq!(drive(&mut host, |s| p.uninstall(s)), Err(ParseError::NotInstalled));
}

#[test]
fn update_rebuilds_what_is_older() {
    let mut host = Host::new();
    host.package("/r", "p", "1", "", "");
    host.package("/r", "q", "3", "", "");
    host.write("/r/update", "publish p 2\npublish q 2\n");
    let packages = load(&mut host, "/r");
    for package in &packages {
        assert_eq!(drive(&mut host, |s| install(package, &packages, s)), Ok(()));
    }
    host.cwd = "/home".to_string();
    host.mkdir("/home");
    let repo = Repo::from("/r".to_string());
    assert_eq!(drive(&mut host, |s| update(&repo, s)), Ok(()));
    assert_eq!(host.updated, vec!["p".to_string()]);
    assert_eq!(host.text("/var/db/installed/p/version"), Some("2".to_string()));
    assert_eq!(host.text("/var/db/installed/q/version"), Some("3".to_string()));
    assert!(host.has("/var/db/installed/p/installed"));
}

#[test]
fn update_restores_the_working_directory_before_it_updates() {
    let mut host = Host::new();
    host.package("/r", "p", "1", "", "");
    host.write("/r/update", "");
    host.mkdir("/home");
    host.cwd = "/home".to_string();
    let repo = Repo::from("/r".to_string());
    assert_eq!(drive(&mut host, |s| repo.update_repository(s)), Ok(()));
    assert_eq!(host.cwd, "/home");
    assert!(host.updated.is_empty());
}

#[test]
fn search_lists_installed_or_by_prefix() {
    let mut host = Host::new();
    host.package("/r", "alpha", "1", "", "");
    host.package("/r", "beta", "1", "", "");
    let packages = load(&mut host, "/r");
    let alpha = named(&packages, "alpha").clone();
    assert_eq!(drive(&mut host, |s| install(&alpha, &packages, s)), Ok(()));
    let mut installed_only = Vec::new();
    let mut by_prefix = Vec::new();
    let prefix = "al".to_string();
    for package in &packages {
        let installed = drive(&mut host, |s| package.is_installed(s)).is_some();
        if search_lists(package, installed, true, None) {
            installed_only.push(package.name.clone());
        }
        if search_lists(package, installed, false, Some(&prefix)) {
            by_prefix.push(package.name.clone());
        }
    }
    assert_eq!(installed_only, vec!["alpha".to_string()]);
    assert_eq!(by_prefix, vec!["alpha".to_string()]);
}

#[test]
fn repositories_come_from_the_list() {
    let mut host = Host::new();
    host.package("/one", "a", "1", "", "");
    host.package("/two", "b", "1", "", "");
    let mut names = Vec::new();
    for repo in get_repositories(Some("/one:/two:/none".to_string())) {
        if let Ok(packages) = drive(&mut host, |s| repo.get_packages(s)) {
            names.extend(packages.into_iter().map(|p| p.name));
        }
    }
    assert_eq!(names, vec!["a".to_string(), "b".to_string()]);
}
