//! A package: what its directory in a repository says of it, whether it is
//! built or installed, and the steps that build, install, update and
//! uninstall it.

use crate::error::{BuildError, ParseError, ParseErrorView};
use crate::repo::{install_data_run, InstallData, InstallDataView};
use crate::session::{
    ask, copy_texts, DirEntry, DirEntryView, left, lemma_follows_unread, lemma_step, outcome,
    ReplyView, Request, RequestView, Run, Session,
};
use crate::structure::{
    children, create_each, delete_each, files_dir, FileStructure, guard, guarded, installed_dir,
    InstallFileStructure, lemma_create_length, path_bufs, project_each, withdraw_each,
};
use crate::text::{
    base, base_name, concat, ends_with, file_name, is_whitespace, join, joined, last_component,
    lemma_joined_plain, lemma_pieces_hold_no_sep, lemma_pieces_nonempty, lines, nonempty_lines,
    pieces, same, strip_whitespace, stripped, trimmed, views,
};
use vstd::prelude::*;
use vstd::string::*;

verus! {

/// A package of a repository.
#[derive(Debug)]
pub struct Package {
    /// The version that the repository offers, without white space.
    pub version: String,
    /// The name of the package's directory.
    pub name: String,
    /// The names of the packages that this one needs, in the order of the
    /// file `depends`.
    pub depends: Vec<String>,
    /// The package's file structure, keyed by its name.
    pub structure: InstallFileStructure,
    /// The package's directory in its repository, where its install script
    /// lies.
    pub dir: String,
}

/// What a [`Package`] holds, each text as the sequence of its characters.
pub struct PackageView {
    pub version: Seq<char>,
    pub name: Seq<char>,
    pub depends: Seq<Seq<char>>,
    /// The id of the package's file structure.
    pub id: Seq<char>,
    /// The package's directory in its repository.
    pub dir: Seq<char>,
}

impl PackageView {
    /// What holds of a package as it is read from its directory: its name is
    /// that of the directory and keys its file structure, name and version
    /// are not empty, and the version holds no white space.
    pub open spec fn wf(self) -> bool {
        &&& self.name == base_name(self.dir)
        &&& self.id == self.name
        &&& self.name.len() > 0
        &&& self.version.len() > 0
        &&& self.version == stripped(self.version)
    }
}

impl View for Package {
    type V = PackageView;

    open spec fn view(&self) -> PackageView {
        PackageView {
            version: self.version@,
            name: self.name@,
            depends: views(self.depends@),
            id: self.structure@,
            dir: self.dir@,
        }
    }
}

impl Clone for Package {
    fn clone(&self) -> (out: Self)
        ensures
            out@ == self@,
    {
        let depends = copy_texts(&self.depends);
        Package {
            version: self.version.clone(),
            name: self.name.clone(),
            depends,
            structure: self.structure.clone(),
            dir: self.dir.clone(),
        }
    }
}

/// The directory that holds what is recorded of every built package.
pub open spec fn root() -> Seq<char> {
    "/var/db/installed/"@
}

/// The run that reads the package in the directory `dir`.
pub open spec fn parse_run(dir: Seq<char>, replies: Seq<ReplyView>) -> Run<
    Result<PackageView, ParseErrorView>,
> {
    let name = base_name(dir);
    if name.len() == 0 {
        Run::finished(Err(ParseErrorView::NoDirectory(dir)))
    } else {
        let one = ask(RequestView::ReadFile(joined(dir, "version"@)), replies);
        match one.out {
            None => one.stopped(),
            Some(reply) => match reply.text() {
                Err(_) => one.giving(Err(ParseErrorView::NoVersion)),
                Ok(text) => if stripped(text).len() == 0 {
                    one.giving(Err(ParseErrorView::NoVersion))
                } else {
                    let two = ask(
                        RequestView::ReadFile(joined(dir, "depends"@)),
                        one.rest(replies),
                    ).after(one.asked);
                    match two.out {
                        None => two.stopped(),
                        Some(reply) => match reply.text() {
                            Err(_) => two.giving(Err(ParseErrorView::NoDepends)),
                            Ok(list) => two.giving(
                                Ok(
                                    PackageView {
                                        version: stripped(text),
                                        name,
                                        depends: nonempty_lines(list),
                                        id: name,
                                        dir,
                                    },
                                ),
                            ),
                        },
                    }
                },
            },
        }
    }
}

/// The first of `entries` whose path ends in the component `name`.
pub open spec fn first_named(entries: Seq<DirEntryView>, name: Seq<char>) -> Option<DirEntryView>
    decreases entries.len(),
{
    if entries.len() == 0 {
        None
    } else if last_component(entries[0].path) == name {
        Some(entries[0])
    } else {
        first_named(entries.drop_first(), name)
    }
}

/// Whether one of `entries` has a name that ends in `installed`: the marker
/// of an installed package.
pub open spec fn has_marker(entries: Seq<DirEntryView>) -> bool {
    exists|i: int|
        0 <= i < entries.len() && "installed"@.is_suffix_of(
            #[trigger] last_component(entries[i].path),
        )
}

/// The run that finds what is recorded of the built package `name`. The
/// directory of all records is made first if it is missing.
pub open spec fn built_run(name: Seq<char>, replies: Seq<ReplyView>) -> Run<
    Option<InstallDataView>,
> {
    let made = guarded(root(), false, RequestView::CreateDirAll(root()), replies);
    match made.out {
        None => made.stopped(),
        Some(_) => {
            let list = ask(RequestView::ReadDir(root()), made.rest(replies)).after(made.asked);
            match list.out {
                None => list.stopped(),
                Some(reply) => match reply.entries() {
                    Err(_) => list.giving(None),
                    Ok(entries) => match first_named(entries, name) {
                        None => list.giving(None),
                        Some(entry) => {
                            let data = install_data_run(entry.path, list.rest(replies)).after(
                                list.asked,
                            );
                            match data.out {
                                None => data.stopped(),
                                Some(Ok(d)) => data.giving(Some(d)),
                                Some(Err(_)) => data.giving(None),
                            }
                        },
                    },
                },
            }
        },
    }
}

/// The run that finds what is recorded of the installed package `name`: of
/// the built package, if its directory holds the marker.
pub open spec fn installed_run(name: Seq<char>, replies: Seq<ReplyView>) -> Run<
    Option<InstallDataView>,
> {
    let built = built_run(name, replies);
    match built.out {
        None => built.stopped(),
        Some(None) => built.giving(None),
        Some(Some(data)) => {
            let list = ask(RequestView::ReadDir(installed_dir(name)), built.rest(replies)).after(
                built.asked,
            );
            match list.out {
                None => list.stopped(),
                Some(reply) => match reply.entries() {
                    Err(_) => list.giving(None),
                    Ok(entries) => if has_marker(entries) {
                        list.giving(Some(data))
                    } else {
                        list.giving(None)
                    },
                },
            }
        },
    }
}

/// What a step of a package returns, seen in contracts.
pub type Outcome = Result<(), ParseErrorView>;

/// The file that records the version of the built package `name`.
pub open spec fn version_file(name: Seq<char>) -> Seq<char> {
    joined(installed_dir(name), "version"@)
}

/// The file that marks the package `name` as installed.
pub open spec fn marker_file(name: Seq<char>) -> Seq<char> {
    joined(installed_dir(name), "installed"@)
}

/// The directory that the package `name` is built into, and in which its
/// install script runs.
pub open spec fn sandbox(name: Seq<char>) -> Seq<char> {
    joined(installed_dir(name), "files"@)
}

/// Where the records of the package `name` lie: the files `version` and
/// `installed` and the directory `files`, all in the directory of the
/// package's name below `/var/db/installed`.
pub proof fn layout_of_records(name: Seq<char>)
    requires
        name.len() > 0,
        !name.contains('/'),
    ensures
        version_file(name) == installed_dir(name) + "/version"@,
        marker_file(name) == installed_dir(name) + "/installed"@,
        sandbox(name) == files_dir(name),
{
    reveal_strlit("version");
    reveal_strlit("installed");
    reveal_strlit("files");
    reveal_strlit("/version");
    reveal_strlit("/installed");
    reveal_strlit("/files");
    let home = installed_dir(name);
    assert(name.contains(name.last()));
    assert(home.last() == name.last());
    lemma_joined_plain(home, "version"@);
    lemma_joined_plain(home, "installed"@);
    lemma_joined_plain(home, "files"@);
    assert(home + seq!['/'] + "version"@ =~= home + "/version"@);
    assert(home + seq!['/'] + "installed"@ =~= home + "/installed"@);
    assert(home + seq!['/'] + "files"@ =~= home + "/files"@);
}

/// The name of a package that was read from its directory holds no `/`.
pub proof fn lemma_name_is_plain(package: PackageView)
    requires
        package.wf(),
    ensures
        package.name.len() > 0,
        !package.name.contains('/'),
{
    let parts = pieces(trimmed(package.dir), '/');
    lemma_pieces_nonempty(trimmed(package.dir), '/');
    lemma_pieces_hold_no_sep(trimmed(package.dir), '/', parts.len() - 1);
}

/// The run that builds `package`: its directories are made, its version is
/// recorded anew, without white space, and its install script is run in the
/// sandbox, with the
/// sandbox and the package's directory as arguments. How the script ends
/// is not asked.
pub open spec fn build_run(package: PackageView, replies: Seq<ReplyView>) -> Run<Outcome> {
    let made = create_each(path_bufs(package.id), replies);
    match made.out {
        None => made.stopped(),
        Some(Err(e)) => made.giving(Err(ParseErrorView::Other(e.text()))),
        Some(Ok(())) => record_run(package, replies, made.asked),
    }
}

/// The second part of a build, after the requests `before`: the version
/// file is removed if it is there, whatever comes of that, and written.
pub open spec fn record_run(
    package: PackageView,
    replies: Seq<ReplyView>,
    before: Seq<RequestView>,
) -> Run<Outcome> {
    let file = version_file(package.name);
    let cleared = guarded(file, true, RequestView::RemoveFile(file), left(replies, before)).after(
        before,
    );
    match cleared.out {
        None => cleared.stopped(),
        Some(_) => {
            let wrote = ask(
                RequestView::WriteFile(file, stripped(package.version)),
                cleared.rest(replies),
            ).after(cleared.asked);
            match wrote.out {
                None => wrote.stopped(),
                Some(reply) => match reply.done() {
                    Err(f) => wrote.giving(Err(ParseErrorView::from_failure(f))),
                    Ok(()) => script_run(package, replies, wrote.asked),
                },
            }
        },
    }
}

/// The last part of a build, after the requests `before`: the sandbox
/// becomes the working directory, and the install script is started and
/// waited for.
pub open spec fn script_run(
    package: PackageView,
    replies: Seq<ReplyView>,
    before: Seq<RequestView>,
) -> Run<Outcome> {
    let files = sandbox(package.name);
    let moved = ask(RequestView::SetCurrentDir(files), left(replies, before)).after(before);
    match moved.out {
        None => moved.stopped(),
        Some(reply) => match reply.done() {
            Err(f) => moved.giving(Err(ParseErrorView::from_failure(f))),
            Ok(()) => {
                let started = ask(
                    RequestView::Spawn(joined(package.dir, "install"@), seq![files, package.dir]),
                    moved.rest(replies),
                ).after(moved.asked);
                match started.out {
                    None => started.stopped(),
                    Some(reply) => match reply.done() {
                        Err(_) => started.giving(Err(ParseErrorView::NoInstallScript)),
                        Ok(()) => {
                            let ended = ask(RequestView::Wait, started.rest(replies)).after(
                                started.asked,
                            );
                            match ended.out {
                                None => ended.stopped(),
                                Some(reply) => match reply.done() {
                                    Err(_) => ended.giving(
                                        Err(ParseErrorView::FailedInstallScript),
                                    ),
                                    Ok(()) => ended.giving(Ok(())),
                                },
                            }
                        },
                    },
                }
            },
        },
    }
}

/// The run that installs the built `package`: the marker is written,
/// whatever comes of that, and the files are published.
pub open spec fn install_run(package: PackageView, replies: Seq<ReplyView>) -> Run<
    Result<(), BuildError>,
> {
    let marked = ask(RequestView::WriteFile(marker_file(package.name), Seq::empty()), replies);
    match marked.out {
        None => marked.stopped(),
        Some(_) => {
            let linked = project_each(
                package.id,
                children(package.id),
                marked.rest(replies),
            ).after(marked.asked);
            match linked.out {
                None => linked.stopped(),
                Some(Err(_)) => linked.giving(Err(BuildError::LinkError)),
                Some(Ok(())) => linked.giving(Ok(())),
            }
        },
    }
}

/// The run that withdraws the files of `package` and removes its
/// directories.
pub open spec fn remove_binaries_run(package: PackageView, replies: Seq<ReplyView>) -> Run<
    Outcome,
> {
    let withdrawn = withdraw_each(package.id, children(package.id), replies);
    match withdrawn.out {
        None => withdrawn.stopped(),
        Some(Err(e)) => withdrawn.giving(Err(ParseErrorView::NoDirectory(e.text()))),
        Some(Ok(())) => {
            let deleted = delete_each(path_bufs(package.id), withdrawn.rest(replies)).after(
                withdrawn.asked,
            );
            match deleted.out {
                None => deleted.stopped(),
                Some(Err(e)) => deleted.giving(Err(ParseErrorView::NoDirectory(e.text()))),
                Some(Ok(())) => deleted.giving(Ok(())),
            }
        },
    }
}

/// The run that uninstalls `package`: if it is built, its files are
/// withdrawn first and its directories removed after that.
pub open spec fn uninstall_run(package: PackageView, replies: Seq<ReplyView>) -> Run<Outcome> {
    let built = built_run(package.name, replies);
    match built.out {
        None => built.stopped(),
        Some(None) => built.giving(Err(ParseErrorView::NotInstalled)),
        Some(Some(_)) => {
            let removed = remove_binaries_run(package, built.rest(replies)).after(built.asked);
            match removed.out {
                None => removed.stopped(),
                Some(Err(e)) => removed.giving(Err(e)),
                Some(Ok(())) => {
                    let deleted = delete_each(path_bufs(package.id), removed.rest(replies)).after(
                        removed.asked,
                    );
                    match deleted.out {
                        None => deleted.stopped(),
                        Some(Err(e)) => deleted.giving(Err(ParseErrorView::Other(e.text()))),
                        Some(Ok(())) => deleted.giving(Ok(())),
                    }
                },
            }
        },
    }
}

/// The run that updates `package`: what is installed of it is removed, and
/// it is built and installed anew.
pub open spec fn update_run(package: PackageView, replies: Seq<ReplyView>) -> Run<Outcome> {
    let removed = remove_binaries_run(package, replies);
    match removed.out {
        None => removed.stopped(),
        Some(Err(e)) => removed.giving(Err(e)),
        Some(Ok(())) => {
            let built = build_run(package, removed.rest(replies)).after(removed.asked);
            match built.out {
                None => built.stopped(),
                Some(Err(e)) => built.giving(Err(e)),
                Some(Ok(())) => {
                    let installed = install_run(package, built.rest(replies)).after(built.asked);
                    match installed.out {
                        None => installed.stopped(),
                        Some(Err(e)) => installed.giving(Err(ParseErrorView::from_build(e))),
                        Some(Ok(())) => installed.giving(Ok(())),
                    }
                },
            }
        },
    }
}

/// The view of what a search for a record returned.
pub open spec fn found(out: Option<Option<InstallData>>) -> Option<Option<InstallDataView>> {
    match out {
        None => None,
        Some(None) => Some(None),
        Some(Some(data)) => Some(Some(data@)),
    }
}

/// The first of `entries` whose path ends in the component `name`.
pub fn find_named(entries: &Vec<DirEntry>, name: &String) -> (at: Option<usize>)
    ensures
        match at {
            Some(i) => i < entries.len() && first_named(views(entries@), name@) == Some(
                entries[i as int]@,
            ),
            None => first_named(views(entries@), name@) is None,
        },
{
    let mut i: usize = 0;
    proof {
        assert(views(entries@).skip(0) =~= views(entries@));
    }
    while i < entries.len()
        invariant
            i <= entries.len(),
            first_named(views(entries@), name@) == first_named(
                views(entries@).skip(i as int),
                name@,
            ),
        decreases entries.len() - i,
    {
        let last = file_name(entries[i].path.as_str());
        proof {
            assert(views(entries@).skip(i as int)[0] == entries[i as int]@);
            assert(views(entries@).skip(i as int).drop_first() =~= views(entries@).skip(i + 1));
        }
        if same(last.as_str(), name.as_str()) {
            return Some(i);
        }
        i += 1;
    }
    None
}

/// Whether one of `entries` is the marker of an installed package.
pub fn marker_among(entries: &Vec<DirEntry>) -> (r: bool)
    ensures
        r == has_marker(views(entries@)),
{
    let mut i: usize = 0;
    while i < entries.len()
        invariant
            i <= entries.len(),
            forall|k: int|
                0 <= k < i ==> !"installed"@.is_suffix_of(
                    #[trigger] last_component(views(entries@)[k].path),
                ),
        decreases entries.len() - i,
    {
        let last = file_name(entries[i].path.as_str());
        if ends_with(last.as_str(), "installed") {
            proof {
                assert(last_component(views(entries@)[i as int].path) == last@);
            }
            return true;
        }
        i += 1;
    }
    false
}

impl Package {
    /// Reads the package in the directory `dir`: its name is the last
    /// component of `dir`, with no regard to `/`s at its end, its version
    /// the file `version` without white space, its dependencies the lines
    /// of the file `depends` that are not empty. A directory without a name gives `NoDirectory`, one without
    /// `version`, or with a blank one, `NoVersion`, one without `depends`
    /// `NoDepends`.
    pub fn try_from(dir: String, session: &mut Session) -> (out: Option<
        Result<Package, ParseError>,
    >)
        requires
            old(session)@.live(),
        ensures
            final(session)@.follows(old(session)@, parse_run(dir@, old(session)@.unread())),
            outcome(out) == parse_run(dir@, old(session)@.unread()).out,
            out matches Some(Ok(package)) ==> package@.wf(),
    {
        let ghost start = session@;
        let name = base(dir.as_str());
        if name.as_str().is_empty() {
            proof {
                assert(start.asked + Seq::<RequestView>::empty() =~= start.asked);
            }
            return Some(Err(ParseError::NoDirectory(dir)));
        }
        let ghost one = ask(RequestView::ReadFile(joined(dir@, "version"@)), start.unread());
        let version = match session.ask_text(Request::ReadFile(join(dir.as_str(), "version"))) {
            None => {
                return None;
            },
            Some(Err(_)) => {
                return Some(Err(ParseError::NoVersion));
            },
            Some(Ok(text)) => strip_whitespace(text.as_str()),
        };
        if version.as_str().is_empty() {
            return Some(Err(ParseError::NoVersion));
        }
        let ghost mid = session@;
        proof {
            lemma_follows_unread(mid, start, one);
        }
        let depends = match session.ask_text(Request::ReadFile(join(dir.as_str(), "depends"))) {
            None => {
                proof {
                    lemma_step(
                        session@,
                        mid,
                        start,
                        one,
                        ask(RequestView::ReadFile(joined(dir@, "depends"@)), mid.unread()),
                    );
                }
                return None;
            },
            Some(Err(_)) => {
                proof {
                    lemma_step(
                        session@,
                        mid,
                        start,
                        one,
                        ask(RequestView::ReadFile(joined(dir@, "depends"@)), mid.unread()),
                    );
                }
                return Some(Err(ParseError::NoDepends));
            },
            Some(Ok(list)) => lines(list.as_str()),
        };
        proof {
            lemma_step(
                session@,
                mid,
                start,
                one,
                ask(RequestView::ReadFile(joined(dir@, "depends"@)), mid.unread()),
            );
            lemma_stripped_twice(one.out->0.text()->Ok_0);
        }
        let structure = InstallFileStructure::new(name.as_str());
        Some(Ok(Package { version, name, depends, structure, dir }))
    }

    /// Builds the package, whatever its fields hold: the version that is
    /// recorded is the package's version without white space. A failure to
    /// make its directories is `Other`
    /// with the failure's text; one to record the version or to enter the
    /// sandbox is classed by its kind; an install script that cannot be
    /// started is `NoInstallScript`, one that cannot be waited for
    /// `FailedInstallScript`.
    pub fn build(&self, session: &mut Session) -> (out: Option<Result<(), ParseError>>)
        requires
            old(session)@.live(),
        ensures
            final(session)@.follows(old(session)@, build_run(self@, old(session)@.unread())),
            outcome(out) == build_run(self@, old(session)@.unread()).out,
    {
        let ghost start = session@;
        let ghost replies = start.unread();
        let home = concat("/var/db/installed/", self.name.as_str());
        let files = join(home.as_str(), "files");
        let file = join(home.as_str(), "version");
        let ghost made = create_each(path_bufs(self@.id), replies);
        match self.structure.create_all(session) {
            None => {
                return None;
            },
            Some(Err(e)) => {
                return Some(Err(ParseError::Other(e.to_string())));
            },
            Some(Ok(())) => {},
        }
        let ghost at_a = session@;
        proof {
            lemma_follows_unread(at_a, start, made);
        }
        let ghost cleared = guarded(file@, true, RequestView::RemoveFile(file@), at_a.unread());
        let removed = guard(&file, true, Request::RemoveFile(file.clone()), session);
        let ghost at_b = session@;
        proof {
            lemma_step(at_b, at_a, start, made, cleared);
        }
        if removed.is_none() {
            return None;
        }
        let version = strip_whitespace(self.version.as_str());
        let ghost wrote = ask(RequestView::WriteFile(file@, version@), at_b.unread());
        let written = session.ask_done(Request::WriteFile(file, version));
        let ghost at_c = session@;
        proof {
            lemma_step(at_c, at_b, start, cleared.after(made.asked), wrote);
        }
        match written {
            None => {
                return None;
            },
            Some(Err(f)) => {
                return Some(Err(ParseError::from_failure(f)));
            },
            Some(Ok(())) => {},
        }
        let ghost moved = ask(RequestView::SetCurrentDir(files@), at_c.unread());
        let entered = session.ask_done(Request::SetCurrentDir(files.clone()));
        let ghost at_d = session@;
        let ghost so_far_c = wrote.after(cleared.after(made.asked).asked);
        proof {
            lemma_step(at_d, at_c, start, so_far_c, moved);
        }
        match entered {
            None => {
                return None;
            },
            Some(Err(f)) => {
                return Some(Err(ParseError::from_failure(f)));
            },
            Some(Ok(())) => {},
        }
        let script = join(self.dir.as_str(), "install");
        let mut arguments: Vec<String> = Vec::new();
        arguments.push(files);
        arguments.push(self.dir.clone());
        proof {
            assert(views(arguments@) =~= seq![sandbox(self@.name), self@.dir]);
        }
        let ghost started = ask(
            RequestView::Spawn(script@, views(arguments@)),
            at_d.unread(),
        );
        let spawned = session.ask_done(Request::Spawn(script, arguments));
        let ghost at_e = session@;
        let ghost so_far_d = moved.after(so_far_c.asked);
        proof {
            lemma_step(at_e, at_d, start, so_far_d, started);
        }
        match spawned {
            None => {
                return None;
            },
            Some(Err(_)) => {
                return Some(Err(ParseError::NoInstallScript));
            },
            Some(Ok(())) => {},
        }
        let ghost ended = ask(RequestView::Wait, at_e.unread());
        let waited = session.ask_done(Request::Wait);
        proof {
            lemma_step(session@, at_e, start, started.after(so_far_d.asked), ended);
        }
        match waited {
            None => None,
            Some(Err(_)) => Some(Err(ParseError::FailedInstallScript)),
            Some(Ok(())) => Some(Ok(())),
        }
    }

    /// Installs the built package: marks it as installed and publishes its
    /// files. Any failure to publish is a `LinkError`.
    pub fn install(&self, session: &mut Session) -> (out: Option<Result<(), BuildError>>)
        requires
            old(session)@.live(),
        ensures
            final(session)@.follows(old(session)@, install_run(self@, old(session)@.unread())),
            outcome(out) == install_run(self@, old(session)@.unread()).out,
    {
        let ghost start = session@;
        let home = concat("/var/db/installed/", self.name.as_str());
        let marker = join(home.as_str(), "installed");
        let ghost marked = ask(
            RequestView::WriteFile(marker@, Seq::empty()),
            start.unread(),
        );
        if session.ask_done(Request::WriteFile(marker, String::new())).is_none() {
            return None;
        }
        let ghost mid = session@;
        proof {
            lemma_follows_unread(mid, start, marked);
        }
        let linked = self.structure.symlink_out_scope(session);
        proof {
            lemma_step(
                session@,
                mid,
                start,
                marked,
                project_each(self@.id, children(self@.id), mid.unread()),
            );
        }
        match linked {
            None => None,
            Some(Err(_)) => Some(Err(BuildError::LinkError)),
            Some(Ok(())) => Some(Ok(())),
        }
    }

    /// Withdraws the package's files and removes its directories. A
    /// failure is `NoDirectory` with the failure's text.
    pub fn remove_binaries(&self, session: &mut Session) -> (out: Option<Result<(), ParseError>>)
        requires
            old(session)@.live(),
        ensures
            final(session)@.follows(
                old(session)@,
                remove_binaries_run(self@, old(session)@.unread()),
            ),
            outcome(out) == remove_binaries_run(self@, old(session)@.unread()).out,
    {
        let ghost start = session@;
        let ghost withdrawn = withdraw_each(self@.id, children(self@.id), start.unread());
        match self.structure.remove_symlinks(session) {
            None => {
                return None;
            },
            Some(Err(e)) => {
                return Some(Err(ParseError::NoDirectory(e.to_string())));
            },
            Some(Ok(())) => {},
        }
        let ghost mid = session@;
        proof {
            lemma_follows_unread(mid, start, withdrawn);
        }
        let deleted = self.structure.delete_all(session);
        proof {
            lemma_step(
                session@,
                mid,
                start,
                withdrawn,
                delete_each(path_bufs(self@.id), mid.unread()),
            );
        }
        match deleted {
            None => None,
            Some(Err(e)) => Some(Err(ParseError::NoDirectory(e.to_string()))),
            Some(Ok(())) => Some(Ok(())),
        }
    }

    /// Uninstalls the package. A package that is not built gives
    /// `NotInstalled`. The links are withdrawn before the files that they
    /// point to are removed.
    pub fn uninstall(&self, session: &mut Session) -> (out: Option<Result<(), ParseError>>)
        requires
            old(session)@.live(),
        ensures
            final(session)@.follows(old(session)@, uninstall_run(self@, old(session)@.unread())),
            outcome(out) == uninstall_run(self@, old(session)@.unread()).out,
    {
        let ghost start = session@;
        let ghost built = built_run(self@.name, start.unread());
        match self.is_built(session) {
            None => {
                return None;
            },
            Some(None) => {
                return Some(Err(ParseError::NotInstalled));
            },
            Some(Some(_)) => {},
        }
        let ghost at_a = session@;
        proof {
            lemma_follows_unread(at_a, start, built);
        }
        let ghost removed = remove_binaries_run(self@, at_a.unread());
        let first = self.remove_binaries(session);
        let ghost at_b = session@;
        proof {
            lemma_step(at_b, at_a, start, built, removed);
        }
        match first {
            None => {
                return None;
            },
            Some(Err(e)) => {
                return Some(Err(e));
            },
            Some(Ok(())) => {},
        }
        let deleted = self.structure.delete_all(session);
        proof {
            lemma_step(
                session@,
                at_b,
                start,
                removed.after(built.asked),
                delete_each(path_bufs(self@.id), at_b.unread()),
            );
        }
        match deleted {
            None => None,
            Some(Err(e)) => Some(Err(ParseError::Other(e.to_string()))),
            Some(Ok(())) => Some(Ok(())),
        }
    }

    /// Updates the package: removes what is installed of it, builds it and
    /// installs it, and stops at the first of these that fails.
    pub fn update(&self, session: &mut Session) -> (out: Option<Result<(), ParseError>>)
        requires
            old(session)@.live(),
        ensures
            final(session)@.follows(old(session)@, update_run(self@, old(session)@.unread())),
            outcome(out) == update_run(self@, old(session)@.unread()).out,
    {
        let ghost start = session@;
        let ghost removed = remove_binaries_run(self@, start.unread());
        match self.remove_binaries(session) {
            None => {
                return None;
            },
            Some(Err(e)) => {
                return Some(Err(e));
            },
            Some(Ok(())) => {},
        }
        let ghost at_a = session@;
        proof {
            lemma_follows_unread(at_a, start, removed);
        }
        let ghost built = build_run(self@, at_a.unread());
        let second = self.build(session);
        let ghost at_b = session@;
        proof {
            lemma_step(at_b, at_a, start, removed, built);
        }
        match second {
            None => {
                return None;
            },
            Some(Err(e)) => {
                return Some(Err(e));
            },
            Some(Ok(())) => {},
        }
        let third = self.install(session);
        proof {
            lemma_step(session@, at_b, start, built.after(removed.asked), install_run(self@, at_b.unread()));
        }
        match third {
            None => None,
            Some(Err(e)) => Some(Err(ParseError::from_build(e))),
            Some(Ok(())) => Some(Ok(())),
        }
    }

    /// What is recorded of the package if it is built: if the directory of
    /// all records holds an entry of the package's name and the file
    /// `version` can be read in it.
    pub fn is_built(&self, session: &mut Session) -> (out: Option<Option<InstallData>>)
        requires
            old(session)@.live(),
        ensures
            final(session)@.follows(old(session)@, built_run(self@.name, old(session)@.unread())),
            found(out) == built_run(self@.name, old(session)@.unread()).out,
    {
        let ghost start = session@;
        let ghost made = guarded(
            root(),
            false,
            RequestView::CreateDirAll(root()),
            start.unread(),
        );
        let root = String::from_str("/var/db/installed/");
        match guard(&root, false, Request::CreateDirAll(root.clone()), session) {
            None => {
                return None;
            },
            Some(_) => {},
        }
        let ghost mid = session@;
        proof {
            lemma_follows_unread(mid, start, made);
        }
        let ghost list = ask(RequestView::ReadDir(root@), mid.unread());
        let listed = session.ask_entries(Request::ReadDir(root));
        proof {
            lemma_step(session@, mid, start, made, list);
        }
        let entries = match listed {
            None => {
                return None;
            },
            Some(Err(_)) => {
                return Some(None);
            },
            Some(Ok(entries)) => entries,
        };
        let ghost last = session@;
        match find_named(&entries, &self.name) {
            None => Some(None),
            Some(i) => {
                let read = InstallData::try_from(&entries[i].path, session);
                proof {
                    lemma_step(
                        session@,
                        last,
                        start,
                        list.after(made.asked),
                        install_data_run(entries[i as int]@.path, last.unread()),
                    );
                }
                match read {
                    None => None,
                    Some(Ok(data)) => Some(Some(data)),
                    Some(Err(_)) => Some(None),
                }
            },
        }
    }

    /// What is recorded of the package if it is installed: if it is built
    /// and its directory among the records holds an entry whose name ends
    /// in `installed`.
    pub fn is_installed(&self, session: &mut Session) -> (out: Option<Option<InstallData>>)
        requires
            old(session)@.live(),
        ensures
            final(session)@.follows(
                old(session)@,
                installed_run(self@.name, old(session)@.unread()),
            ),
            found(out) == installed_run(self@.name, old(session)@.unread()).out,
    {
        let ghost start = session@;
        let ghost built = built_run(self@.name, start.unread());
        let data = match self.is_built(session) {
            None => {
                return None;
            },
            Some(None) => {
                return Some(None);
            },
            Some(Some(data)) => data,
        };
        let ghost mid = session@;
        proof {
            lemma_follows_unread(mid, start, built);
        }
        let place = concat("/var/db/installed/", self.name.as_str());
        let ghost list = ask(RequestView::ReadDir(place@), mid.unread());
        let listed = session.ask_entries(Request::ReadDir(place));
        proof {
            lemma_step(session@, mid, start, built, list);
        }
        match listed {
            None => None,
            Some(Err(_)) => Some(None),
            Some(Ok(entries)) => if marker_among(&entries) {
                Some(Some(data))
            } else {
                Some(None)
            },
        }
    }
}

/// Whether a search has found a record.
pub open spec fn recorded(out: Option<Option<InstallDataView>>) -> bool {
    out is Some && out->0 is Some
}

/// A package is installed exactly if it is built and the listing of its
/// directory among the records shows the marker; what is recorded of it is
/// the same either way. The search for the installed package is the search
/// for the built one, followed by that listing where the package is built.
pub proof fn installed_iff_built_and_marked(name: Seq<char>, replies: Seq<ReplyView>)
    ensures
        ({
            let built = built_run(name, replies);
            let installed = installed_run(name, replies);
            let at = built.asked.len() as int;
            &&& recorded(installed.out) ==> built.out == installed.out
            &&& recorded(installed.out) <==> recorded(built.out) && at < replies.len()
                && replies[at].entries() is Ok && has_marker(replies[at].entries()->Ok_0)
            &&& installed.asked == if recorded(built.out) {
                built.asked.push(RequestView::ReadDir(installed_dir(name)))
            } else {
                built.asked
            }
        }),
{
    let built = built_run(name, replies);
    if recorded(built.out) {
        assert(built.asked + seq![RequestView::ReadDir(installed_dir(name))]
            =~= built.asked.push(RequestView::ReadDir(installed_dir(name))));
    }
}

/// A build that succeeds ends with four requests: the package's version,
/// without white space, is written to the version file of its name, the
/// sandbox is entered, and the
/// install script is started and waited for. The host has said that the
/// version was written, and nothing after that touches the file.
pub proof fn build_records_version(package: PackageView, replies: Seq<ReplyView>)
    requires
        build_run(package, replies).out == Some(Outcome::Ok(())),
    ensures
        ({
            let asked = build_run(package, replies).asked;
            let n = asked.len() as int;
            &&& 4 <= n <= replies.len()
            &&& asked[n - 4] == RequestView::WriteFile(
                version_file(package.name),
                stripped(package.version),
            )
            &&& replies[n - 4].done() is Ok
            &&& asked[n - 3] == RequestView::SetCurrentDir(sandbox(package.name))
            &&& asked[n - 2] is Spawn
            &&& asked[n - 1] == RequestView::Wait
        }),
{
    let made = create_each(path_bufs(package.id), replies);
    lemma_create_length(path_bufs(package.id), replies);
}

/// Text that holds no white space is left as it is.
pub proof fn lemma_stripped_twice(text: Seq<char>)
    ensures
        stripped(stripped(text)) == stripped(text),
    decreases text.len(),
{
    reveal(Seq::filter);
    let keep = |c: char| !is_whitespace(c);
    if text.len() > 0 {
        lemma_stripped_twice(text.drop_last());
        let before = stripped(text.drop_last());
        if keep(text.last()) {
            before.lemma_filter_push(text.last(), keep);
        }
    }
}

} // verus!
