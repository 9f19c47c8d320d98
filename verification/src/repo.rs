//! Repositories: directories of packages, and what is recorded of a package
//! that was built.

use crate::error::{ParseError, ParseErrorView, UpdateError, UpdateErrorView};
use crate::package::{installed_run, Package, PackageView, parse_run};
use crate::session::{
    ask, DirEntryView, Failure, FailureView, left, lemma_after_empty, lemma_follows_unread,
    lemma_for_each, lemma_next_item, lemma_step, outcome, ReplyView, Request, RequestView, Run,
    Session, SessionView,
};
use crate::text::{
    join, joined, lemma_views_push, number, NumberError, parse_number, pieces, split,
    strip_whitespace, stripped, views,
};
use vstd::prelude::*;
use vstd::string::*;

verus! {

/// What is recorded of a package that was built: the version that was
/// built, without white space.
#[derive(Debug, PartialEq, Eq)]
pub struct InstallData {
    pub version: String,
}

/// What a [`InstallData`] holds, each text as the sequence of its characters.
pub struct InstallDataView {
    pub version: Seq<char>,
}

impl View for InstallData {
    type V = InstallDataView;

    open spec fn view(&self) -> InstallDataView {
        InstallDataView { version: self.version@ }
    }
}

impl Clone for InstallData {
    fn clone(&self) -> (out: Self)
        ensures
            out == *self,
    {
        InstallData { version: self.version.clone() }
    }
}

/// The run that reads what is recorded in the directory `path`.
pub open spec fn install_data_run(path: Seq<char>, replies: Seq<ReplyView>) -> Run<
    Result<InstallDataView, ParseErrorView>,
> {
    let read = ask(RequestView::ReadFile(joined(path, "version"@)), replies);
    match read.out {
        None => read.stopped(),
        Some(reply) => match reply.text() {
            Ok(text) => read.giving(Ok(InstallDataView { version: stripped(text) })),
            Err(_) => read.giving(Err(ParseErrorView::NoVersion)),
        },
    }
}

impl InstallData {
    /// Reads what is recorded in the directory `path`: its file `version`.
    /// Without that file there is `NoVersion`.
    pub fn try_from(path: &String, session: &mut Session) -> (out: Option<
        Result<InstallData, ParseError>,
    >)
        requires
            old(session)@.live(),
        ensures
            final(session)@.follows(old(session)@, install_data_run(path@, old(session)@.unread())),
            outcome(out) == install_data_run(path@, old(session)@.unread()).out,
    {
        let file = join(path.as_str(), "version");
        match session.ask_text(Request::ReadFile(file)) {
            None => None,
            Some(Ok(text)) => Some(Ok(InstallData { version: strip_whitespace(text.as_str()) })),
            Some(Err(_)) => Some(Err(ParseError::NoVersion)),
        }
    }
}

/// A repository: a directory whose entries are packages.
#[derive(Debug, PartialEq, Eq)]
pub struct Repo {
    pub dir: String,
}

impl View for Repo {
    type V = Seq<char>;

    open spec fn view(&self) -> Seq<char> {
        self.dir@
    }
}

/// The repositories that are searched where none are named.
pub open spec fn default_repositories() -> Seq<char> {
    "/usr/repo/pur:/usr/repo/pur-community:/usr/repo/unofficial"@
}

/// The directories that `listed` names: its parts between colons. Without
/// `listed`, those of the default list.
pub open spec fn repository_dirs(listed: Option<Seq<char>>) -> Seq<Seq<char>> {
    match listed {
        Some(list) => pieces(list, ':'),
        None => pieces(default_repositories(), ':'),
    }
}

/// The repositories to search: those that `listed` names, which is the
/// value of `PUR_PATH` if it is set.
pub fn get_repositories(listed: Option<String>) -> (repositories: Vec<Repo>)
    ensures
        views(repositories@) == repository_dirs(
            match listed {
                Some(list) => Some(list@),
                None => None,
            },
        ),
{
    let dirs = match listed {
        Some(list) => split(list.as_str(), ':'),
        None => split("/usr/repo/pur:/usr/repo/pur-community:/usr/repo/unofficial", ':'),
    };
    let mut repositories: Vec<Repo> = Vec::new();
    let mut i: usize = 0;
    while i < dirs.len()
        invariant
            i <= dirs.len(),
            views(repositories@) == views(dirs@).take(i as int),
        decreases dirs.len() - i,
    {
        let repo = Repo::from(dirs[i].clone());
        proof {
            lemma_views_push(repositories@, repo);
            assert(views(dirs@).take(i + 1) =~= views(dirs@).take(i as int).push(dirs[i as int]@));
        }
        repositories.push(repo);
        i += 1;
    }
    proof {
        assert(views(dirs@).take(dirs.len() as int) =~= views(dirs@));
    }
    repositories
}

/// What the comparison of two versions gives: the number that the digits
/// of `x` say less the number that the digits of `y` say.
pub open spec fn version_difference(x: Seq<char>, y: Seq<char>) -> Result<int, NumberError> {
    match number(x) {
        Err(e) => Err(e),
        Ok(a) => match number(y) {
            Err(e) => Err(e),
            Ok(b) => Ok(a - b),
        },
    }
}

/// Whether the version `offered` is newer than the version `installed`:
/// whether both hold a number and that of `offered` is the greater.
pub open spec fn newer(offered: Seq<char>, installed: Seq<char>) -> bool {
    match version_difference(offered, installed) {
        Ok(d) => d > 0,
        Err(_) => false,
    }
}

/// Compares two versions by their digits, each read as one decimal number
/// whatever stands between the digits. A positive result says that `x` is
/// the newer one.
pub fn comparse_version(x: &str, y: &str) -> (out: Result<i32, NumberError>)
    ensures
        match out {
            Ok(d) => version_difference(x@, y@) == Ok::<int, NumberError>(d as int),
            Err(e) => version_difference(x@, y@) == Err::<int, NumberError>(e),
        },
{
    let a = match parse_number(x) {
        Ok(a) => a,
        Err(e) => {
            return Err(e);
        },
    };
    let b = match parse_number(y) {
        Ok(b) => b,
        Err(e) => {
            return Err(e);
        },
    };
    Ok(a - b)
}

/// Whether `package`, installed as `data` records, is to be updated.
pub fn update_due(package: &Package, data: &InstallData) -> (due: bool)
    ensures
        due == newer(package@.version, data@.version),
{
    match comparse_version(package.version.as_str(), data.version.as_str()) {
        Ok(d) => d > 0,
        Err(_) => false,
    }
}

/// The run that reads each of `entries` as a package and gives those that
/// can be read, in order.
pub open spec fn parse_each(entries: Seq<DirEntryView>, replies: Seq<ReplyView>) -> Run<
    Seq<PackageView>,
>
    decreases entries.len(),
{
    if entries.len() == 0 {
        Run::finished(Seq::empty())
    } else {
        let first = parse_run(entries[0].path, replies);
        match first.out {
            None => first.stopped(),
            Some(read) => {
                let others = parse_each(entries.drop_first(), first.rest(replies)).after(
                    first.asked,
                );
                match others.out {
                    None => others.stopped(),
                    Some(more) => others.giving(
                        match read {
                            Ok(package) => seq![package] + more,
                            Err(_) => more,
                        },
                    ),
                }
            },
        }
    }
}

/// The run that reads the packages of the repository `dir`.
pub open spec fn packages_run(dir: Seq<char>, replies: Seq<ReplyView>) -> Run<
    Result<Seq<PackageView>, FailureView>,
> {
    let list = ask(RequestView::ReadDir(dir), replies);
    match list.out {
        None => list.stopped(),
        Some(reply) => match reply.entries() {
            Err(f) => list.giving(Err(f)),
            Ok(entries) => {
                let read = parse_each(entries, list.rest(replies)).after(list.asked);
                match read.out {
                    None => read.stopped(),
                    Some(packages) => read.giving(Ok(packages)),
                }
            },
        },
    }
}

/// The view of the packages that were asked for.
pub open spec fn fetched(out: Option<Result<Vec<Package>, Failure>>) -> Option<
    Result<Seq<PackageView>, FailureView>,
> {
    match out {
        None => None,
        Some(Ok(packages)) => Some(Ok(views(packages@))),
        Some(Err(f)) => Some(Err(f@)),
    }
}

/// `run`, made after the requests `asked` and the packages `found` before:
/// its packages follow those.
pub open spec fn joined_run(
    run: Run<Seq<PackageView>>,
    asked: Seq<RequestView>,
    found: Seq<PackageView>,
) -> Run<Seq<PackageView>> {
    Run {
        asked: asked + run.asked,
        out: match run.out {
            None => None,
            Some(more) => Some(found + more),
        },
    }
}

/// The run that updates `package` if it is installed in an older version:
/// the host is asked to update it. Where `strict` holds, a failure to do so
/// is passed on; else it is passed over.
pub open spec fn upgrade_one(package: PackageView, strict: bool, replies: Seq<ReplyView>) -> Run<
    Result<(), UpdateErrorView>,
> {
    let installed = installed_run(package.name, replies);
    match installed.out {
        None => installed.stopped(),
        Some(None) => installed.giving(Ok(())),
        Some(Some(data)) => if newer(package.version, data.version) {
            let updated = ask(
                RequestView::Update(package.dir, data.version),
                installed.rest(replies),
            ).after(installed.asked);
            match updated.out {
                None => updated.stopped(),
                Some(reply) => match reply.done() {
                    Ok(()) => updated.giving(Ok(())),
                    Err(f) => if strict {
                        updated.giving(Err(UpdateErrorView::PackageUpdateError(f.message)))
                    } else {
                        updated.giving(Ok(()))
                    },
                },
            }
        } else {
            installed.giving(Ok(()))
        },
    }
}

/// The host is asked to update a package exactly if the package is
/// installed and the digits of the version on offer say a greater number
/// than the digits of the version that is installed: the request follows
/// the search for the record, and nothing else does.
pub proof fn update_asked_iff_newer(package: PackageView, strict: bool, replies: Seq<ReplyView>)
    ensures
        ({
            let installed = installed_run(package.name, replies);
            let run = upgrade_one(package, strict, replies);
            match installed.out {
                Some(Some(data)) => run.asked == if number(package.version) is Ok && number(
                    data.version,
                ) is Ok && number(package.version)->Ok_0 > number(data.version)->Ok_0 {
                    installed.asked.push(RequestView::Update(package.dir, data.version))
                } else {
                    installed.asked
                },
                _ => run.asked == installed.asked,
            }
        }),
{
    let installed = installed_run(package.name, replies);
    if installed.out is Some && installed.out->0 is Some {
        let data = installed.out->0->0;
        if newer(package.version, data.version) {
            assert(installed.asked + seq![RequestView::Update(package.dir, data.version)]
                =~= installed.asked.push(RequestView::Update(package.dir, data.version)));
        }
    }
}

/// The run that updates each of `packages` in order.
pub open spec fn upgrade_each(
    packages: Seq<PackageView>,
    strict: bool,
    replies: Seq<ReplyView>,
) -> Run<Result<(), UpdateErrorView>>
    decreases packages.len(),
{
    if packages.len() == 0 {
        Run::finished(Ok(()))
    } else {
        let first = upgrade_one(packages[0], strict, replies);
        if first.out == Some(Ok::<(), UpdateErrorView>(())) {
            upgrade_each(packages.drop_first(), strict, first.rest(replies)).after(first.asked)
        } else {
            first
        }
    }
}

/// The run that refreshes the repository `dir` with its update script.
pub open spec fn refresh_run(dir: Seq<char>, replies: Seq<ReplyView>) -> Run<
    Result<(), UpdateErrorView>,
> {
    let script = joined(dir, "update"@);
    let probe = ask(RequestView::Exists(script), replies);
    match probe.out {
        None => probe.stopped(),
        Some(found) => if !found.flag() {
            probe.giving(Err(UpdateErrorView::NoUpdateScript))
        } else {
            let saved = ask(RequestView::CurrentDir, probe.rest(replies)).after(probe.asked);
            match saved.out {
                None => saved.stopped(),
                Some(place) => {
                    let moved = ask(RequestView::SetCurrentDir(dir), saved.rest(replies)).after(
                        saved.asked,
                    );
                    match moved.out {
                        None => moved.stopped(),
                        Some(reply) => match reply.done() {
                            Err(_) => moved.giving(Err(UpdateErrorView::NoUpdateScript)),
                            Ok(()) => script_run(script, place.text(), replies, moved.asked),
                        },
                    }
                },
            }
        },
    }
}

/// The second part of a refresh, after the requests `before`: the update
/// script is started and waited for, and the working directory `place` is
/// entered again if it was known.
pub open spec fn script_run(
    script: Seq<char>,
    place: Result<Seq<char>, FailureView>,
    replies: Seq<ReplyView>,
    before: Seq<RequestView>,
) -> Run<Result<(), UpdateErrorView>> {
    let started = ask(RequestView::Spawn(script, Seq::empty()), left(replies, before)).after(
        before,
    );
    match started.out {
        None => started.stopped(),
        Some(reply) => match reply.done() {
            Err(_) => started.giving(Err(UpdateErrorView::UpdateScriptError)),
            Ok(()) => {
                let ended = ask(RequestView::Wait, started.rest(replies)).after(started.asked);
                match ended.out {
                    None => ended.stopped(),
                    Some(reply) => match reply.done() {
                        Err(_) => ended.giving(Err(UpdateErrorView::UpdateScriptError)),
                        Ok(()) => match place {
                            Err(_) => ended.giving(Ok(())),
                            Ok(back) => {
                                let returned = ask(
                                    RequestView::SetCurrentDir(back),
                                    ended.rest(replies),
                                ).after(ended.asked);
                                match returned.out {
                                    None => returned.stopped(),
                                    Some(reply) => match reply.done() {
                                        Err(_) => returned.giving(
                                            Err(UpdateErrorView::UpdateScriptError),
                                        ),
                                        Ok(()) => returned.giving(Ok(())),
                                    },
                                }
                            },
                        },
                    },
                }
            },
        },
    }
}

/// The run that updates the repository `dir`: it is refreshed, its packages
/// are read, and each one that is installed in an older version is updated.
pub open spec fn update_run(dir: Seq<char>, strict: bool, replies: Seq<ReplyView>) -> Run<
    Result<(), UpdateErrorView>,
> {
    let refreshed = refresh_run(dir, replies);
    match refreshed.out {
        None => refreshed.stopped(),
        Some(Err(e)) => refreshed.giving(Err(e)),
        Some(Ok(())) => {
            let read = packages_run(dir, refreshed.rest(replies)).after(refreshed.asked);
            match read.out {
                None => read.stopped(),
                Some(Err(_)) => read.giving(Err(UpdateErrorView::UpdateScriptError)),
                Some(Ok(packages)) => upgrade_each(packages, strict, read.rest(replies)).after(
                    read.asked,
                ),
            }
        },
    }
}

impl Repo {
    /// The repository in the directory `dir`.
    pub fn from(dir: String) -> (repo: Repo)
        ensures
            repo@ == dir@,
    {
        Repo { dir }
    }

    /// Reads the packages of the repository: each entry of its directory
    /// that can be read as a package, in the order of the listing. Nothing
    /// is kept between two calls.
    pub fn get_packages(&self, session: &mut Session) -> (out: Option<
        Result<Vec<Package>, Failure>,
    >)
        requires
            old(session)@.live(),
        ensures
            final(session)@.follows(old(session)@, packages_run(self@, old(session)@.unread())),
            fetched(out) == packages_run(self@, old(session)@.unread()).out,
    {
        let ghost start = session@;
        let ghost list = ask(RequestView::ReadDir(self@), start.unread());
        let entries = match session.ask_entries(Request::ReadDir(self.dir.clone())) {
            None => {
                return None;
            },
            Some(Err(f)) => {
                return Some(Err(f));
            },
            Some(Ok(entries)) => entries,
        };
        let ghost mid = session@;
        let ghost mut done: Seq<RequestView> = Seq::empty();
        let mut packages: Vec<Package> = Vec::new();
        let mut i: usize = 0;
        proof {
            lemma_follows_unread(mid, start, list);
            assert(views(entries@).skip(0) =~= views(entries@));
            assert(mid.asked + done =~= mid.asked);
            let all = parse_each(views(entries@), mid.unread());
            assert(joined_run(all, done, views(packages@)) =~= all) by {
                assert(done + all.asked =~= all.asked);
                if all.out is Some {
                    assert(views(packages@) + all.out->0 =~= all.out->0);
                }
            }
        }
        while i < entries.len()
            invariant
                i <= entries.len(),
                start == old(session)@,
                mid.follows(start, list),
                mid.live(),
                mid.unread() == list.rest(start.unread()),
                list.out == Some(ReplyView::Entries(views(entries@))),
                list == ask(RequestView::ReadDir(self@), start.unread()),
                session@.replies == mid.replies,
                session@.asked == mid.asked + done,
                session@.live(),
                parse_each(views(entries@), mid.unread()) == joined_run(
                    parse_each(views(entries@).skip(i as int), session@.unread()),
                    done,
                    views(packages@),
                ),
            decreases entries.len() - i,
        {
            let ghost now = session@;
            let ghost rest = views(entries@).skip(i as int);
            let ghost first = parse_run(entries[i as int]@.path, now.unread());
            let ghost had = views(packages@);
            proof {
                assert(rest[0] == entries[i as int]@);
                assert(rest.drop_first() =~= views(entries@).skip(i + 1));
            }
            let read = Package::try_from(entries[i].path.clone(), session);
            proof {
                assert(session@.asked =~= mid.asked + (done + first.asked));
            }
            match read {
                None => {
                    proof {
                        lemma_reading(session@, mid, start, list, done + first.asked);
                    }
                    return None;
                },
                Some(Ok(package)) => {
                    proof {
                        lemma_views_push(packages@, package);
                    }
                    packages.push(package);
                },
                Some(Err(_)) => {},
            }
            proof {
                lemma_follows_unread(session@, now, first);
                let others = parse_each(views(entries@).skip(i + 1), session@.unread());
                assert(joined_run(parse_each(rest, now.unread()), done, had) =~= joined_run(
                    others,
                    done + first.asked,
                    views(packages@),
                )) by {
                    assert(done + (first.asked + others.asked) =~= (done + first.asked)
                        + others.asked);
                    if others.out is Some {
                        let more = others.out->0;
                        if first.out->0 is Ok {
                            assert(had + (seq![first.out->0->Ok_0] + more) =~= had.push(
                                first.out->0->Ok_0,
                            ) + more);
                        }
                    }
                }
                done = done + first.asked;
            }
            i += 1;
        }
        proof {
            assert(views(entries@).skip(i as int).len() == 0);
            assert(done + Seq::<RequestView>::empty() =~= done);
            assert(views(packages@) + Seq::<PackageView>::empty() =~= views(packages@));
            lemma_reading(session@, mid, start, list, done);
        }
        Some(Ok(packages))
    }

    /// Updates the repository: refreshes it, reads its packages and asks
    /// the host to update each one that is installed in an older version
    /// than the repository now offers. Where `strict` holds, the first
    /// package that the host fails to update ends the run with
    /// `PackageUpdateError`; else such a package is passed over.
    pub fn update_with(&self, strict: bool, session: &mut Session) -> (out: Option<
        Result<(), UpdateError>,
    >)
        requires
            old(session)@.live(),
        ensures
            final(session)@.follows(old(session)@, update_run(self@, strict, old(session)@.unread())),
            outcome(out) == update_run(self@, strict, old(session)@.unread()).out,
    {
        let ghost start = session@;
        let ghost refreshed = refresh_run(self@, start.unread());
        match self.refresh(session) {
            None => {
                return None;
            },
            Some(Err(e)) => {
                return Some(Err(e));
            },
            Some(Ok(())) => {},
        }
        let ghost at_a = session@;
        proof {
            lemma_follows_unread(at_a, start, refreshed);
        }
        let ghost read = packages_run(self@, at_a.unread());
        let fetched = self.get_packages(session);
        let ghost at_b = session@;
        proof {
            lemma_step(at_b, at_a, start, refreshed, read);
        }
        let packages = match fetched {
            None => {
                return None;
            },
            Some(Err(_)) => {
                return Some(Err(UpdateError::UpdateScriptError));
            },
            Some(Ok(packages)) => packages,
        };
        let out = upgrade_all(&packages, strict, session);
        proof {
            lemma_step(
                session@,
                at_b,
                start,
                read.after(refreshed.asked),
                upgrade_each(views(packages@), strict, at_b.unread()),
            );
        }
        out
    }

    /// Updates the repository, and stops at the first package that the
    /// host fails to update.
    pub fn update_repository(&self, session: &mut Session) -> (out: Option<
        Result<(), UpdateError>,
    >)
        requires
            old(session)@.live(),
        ensures
            final(session)@.follows(old(session)@, update_run(self@, true, old(session)@.unread())),
            outcome(out) == update_run(self@, true, old(session)@.unread()).out,
    {
        self.update_with(true, session)
    }

    /// Refreshes the repository with its script `update`, run in the
    /// repository's directory. Without the script, or if the directory
    /// cannot be entered, there is `NoUpdateScript`; a script that cannot
    /// be started or waited for, and a working directory that cannot be
    /// entered again, give `UpdateScriptError`.
    pub fn refresh(&self, session: &mut Session) -> (out: Option<Result<(), UpdateError>>)
        requires
            old(session)@.live(),
        ensures
            final(session)@.follows(old(session)@, refresh_run(self@, old(session)@.unread())),
            outcome(out) == refresh_run(self@, old(session)@.unread()).out,
    {
        let ghost start = session@;
        let script = join(self.dir.as_str(), "update");
        let ghost probe = ask(RequestView::Exists(script@), start.unread());
        match session.ask_flag(Request::Exists(script.clone())) {
            None => {
                return None;
            },
            Some(false) => {
                return Some(Err(UpdateError::NoUpdateScript));
            },
            Some(true) => {},
        }
        let ghost at_a = session@;
        proof {
            lemma_follows_unread(at_a, start, probe);
        }
        let ghost saved = ask(RequestView::CurrentDir, at_a.unread());
        let place = session.ask_text(Request::CurrentDir);
        let ghost at_b = session@;
        proof {
            lemma_step(at_b, at_a, start, probe, saved);
        }
        let place = match place {
            None => {
                return None;
            },
            Some(place) => place,
        };
        let ghost moved = ask(RequestView::SetCurrentDir(self@), at_b.unread());
        let entered = session.ask_done(Request::SetCurrentDir(self.dir.clone()));
        let ghost at_c = session@;
        let ghost so_far_b = saved.after(probe.asked);
        proof {
            lemma_step(at_c, at_b, start, so_far_b, moved);
        }
        match entered {
            None => {
                return None;
            },
            Some(Err(_)) => {
                return Some(Err(UpdateError::NoUpdateScript));
            },
            Some(Ok(())) => {},
        }
        let ghost started = ask(RequestView::Spawn(script@, Seq::empty()), at_c.unread());
        let arguments: Vec<String> = Vec::new();
        proof {
            assert(views(arguments@) =~= Seq::<Seq<char>>::empty());
        }
        let spawned = session.ask_done(Request::Spawn(script, arguments));
        let ghost at_d = session@;
        let ghost so_far_c = moved.after(so_far_b.asked);
        proof {
            lemma_step(at_d, at_c, start, so_far_c, started);
        }
        match spawned {
            None => {
                return None;
            },
            Some(Err(_)) => {
                return Some(Err(UpdateError::UpdateScriptError));
            },
            Some(Ok(())) => {},
        }
        let ghost ended = ask(RequestView::Wait, at_d.unread());
        let waited = session.ask_done(Request::Wait);
        let ghost at_e = session@;
        let ghost so_far_d = started.after(so_far_c.asked);
        proof {
            lemma_step(at_e, at_d, start, so_far_d, ended);
        }
        match waited {
            None => {
                return None;
            },
            Some(Err(_)) => {
                return Some(Err(UpdateError::UpdateScriptError));
            },
            Some(Ok(())) => {},
        }
        match place {
            Err(_) => Some(Ok(())),
            Ok(back) => {
                let ghost returned = ask(RequestView::SetCurrentDir(back@), at_e.unread());
                let restored = session.ask_done(Request::SetCurrentDir(back));
                proof {
                    lemma_step(session@, at_e, start, ended.after(so_far_d.asked), returned);
                }
                match restored {
                    None => None,
                    Some(Err(_)) => Some(Err(UpdateError::UpdateScriptError)),
                    Some(Ok(())) => Some(Ok(())),
                }
            },
        }
    }
}

/// Updates `package` if it is installed in an older version than the one
/// that `package` offers.
pub fn upgrade(package: &Package, strict: bool, session: &mut Session) -> (out: Option<
    Result<(), UpdateError>,
>)
    requires
        old(session)@.live(),
    ensures
        final(session)@.follows(old(session)@, upgrade_one(package@, strict, old(session)@.unread())),
        outcome(out) == upgrade_one(package@, strict, old(session)@.unread()).out,
{
    let ghost start = session@;
    let ghost installed = installed_run(package@.name, start.unread());
    let data = match package.is_installed(session) {
        None => {
            return None;
        },
        Some(None) => {
            return Some(Ok(()));
        },
        Some(Some(data)) => data,
    };
    if !update_due(package, &data) {
        return Some(Ok(()));
    }
    let ghost mid = session@;
    proof {
        lemma_follows_unread(mid, start, installed);
    }
    let asked = session.ask_done(Request::Update(package.dir.clone(), data.version));
    proof {
        lemma_step(
            session@,
            mid,
            start,
            installed,
            ask(RequestView::Update(package@.dir, data@.version), mid.unread()),
        );
    }
    match asked {
        None => None,
        Some(Ok(())) => Some(Ok(())),
        Some(Err(f)) => if strict {
            Some(Err(UpdateError::PackageUpdateError(f.message)))
        } else {
            Some(Ok(()))
        },
    }
}

/// Updates each of `packages` in order.
#[verifier::spinoff_prover]
pub fn upgrade_all(packages: &Vec<Package>, strict: bool, session: &mut Session) -> (out: Option<
    Result<(), UpdateError>,
>)
    requires
        old(session)@.live(),
    ensures
        final(session)@.follows(
            old(session)@,
            upgrade_each(views(packages@), strict, old(session)@.unread()),
        ),
        outcome(out) == upgrade_each(views(packages@), strict, old(session)@.unread()).out,
{
    let ghost start = session@;
    let ghost mut done: Seq<RequestView> = Seq::empty();
    let mut i: usize = 0;
    proof {
        assert(views(packages@).skip(0) =~= views(packages@));
        assert(start.asked + done =~= start.asked);
        lemma_after_empty(upgrade_each(views(packages@), strict, start.unread()));
    }
    while i < packages.len()
        invariant
            i <= packages.len(),
            start == old(session)@,
            session@.replies == start.replies,
            session@.asked == start.asked + done,
            session@.live(),
            upgrade_each(views(packages@), strict, start.unread()) == upgrade_each(
                views(packages@).skip(i as int),
                strict,
                session@.unread(),
            ).after(done),
        decreases packages.len() - i,
    {
        let ghost mid = session@;
        let ghost first = upgrade_one(packages[i as int]@, strict, mid.unread());
        let step = upgrade(&packages[i], strict, session);
        proof {
            lemma_next_item(views(packages@), i as int);
            let next = upgrade_each(views(packages@).skip(i + 1), strict, session@.unread());
            lemma_for_each(session@, mid, start, done, first, next);
        }
        match step {
            None => {
                return None;
            },
            Some(Err(e)) => {
                return Some(Err(e));
            },
            Some(Ok(())) => {},
        }
        proof {
            done = done + first.asked;
        }
        i += 1;
    }
    proof {
        assert(views(packages@).skip(i as int).len() == 0);
        assert(done + Seq::<RequestView>::empty() =~= done);
    }
    Some(Ok(()))
}

/// What `get_packages` has done once it has listed the directory and then
/// made the requests `done`.
proof fn lemma_reading(
    last: SessionView,
    mid: SessionView,
    start: SessionView,
    list: Run<ReplyView>,
    done: Seq<RequestView>,
)
    requires
        mid.follows(start, list),
        last.replies == mid.replies,
        last.asked == mid.asked + done,
    ensures
        last.asked == start.asked + (list.asked + done),
{
    assert(last.asked =~= start.asked + (list.asked + done));
}

} // verus!
