//! The commands: packages are built and installed after what they need,
//! repositories are updated, packages are removed.
//!
//! A command asks the host for whole steps of a package (`IsBuilt`, `Build`,
//! `Install`, `Uninstall`, `Update`). The host performs such a step by
//! running the package's own procedure of that name, on a session of its
//! own.

use crate::error::{ExecuteError, UpdateError};
use crate::package::{Package, PackageView};
use crate::repo::{Repo, update_run};
use crate::session::{
    ask, left, lemma_after_empty, lemma_follows_unread, lemma_for_each, lemma_next_item, lemma_step,
    outcome, ReplyView, Request, RequestView, Run, Session,
};
use crate::text::{concat, same, starts_with, views};
use vstd::prelude::*;
use vstd::string::*;

verus! {

/// What a command returns, seen in contracts.
pub type Verdict = Result<(), ExecuteError>;

/// The first of `packages` that has the name `name`.
pub open spec fn lookup(packages: Seq<PackageView>, name: Seq<char>) -> Option<PackageView>
    decreases packages.len(),
{
    if packages.len() == 0 {
        None
    } else if packages[0].name == name {
        Some(packages[0])
    } else {
        lookup(packages.drop_first(), name)
    }
}

/// The first of `packages` that has the name `name`.
pub fn find(packages: &Vec<Package>, name: &String) -> (at: Option<usize>)
    ensures
        match at {
            Some(i) => i < packages.len() && lookup(views(packages@), name@) == Some(
                packages[i as int]@,
            ),
            None => lookup(views(packages@), name@) is None,
        },
{
    let mut i: usize = 0;
    proof {
        assert(views(packages@).skip(0) =~= views(packages@));
    }
    while i < packages.len()
        invariant
            i <= packages.len(),
            lookup(views(packages@), name@) == lookup(views(packages@).skip(i as int), name@),
        decreases packages.len() - i,
    {
        proof {
            assert(views(packages@).skip(i as int)[0] == packages[i as int]@);
            assert(views(packages@).skip(i as int).drop_first() =~= views(packages@).skip(i + 1));
        }
        if same(packages[i].name.as_str(), name.as_str()) {
            return Some(i);
        }
        i += 1;
    }
    None
}

/// The run that installs `package` with `depth` levels of dependencies at
/// most: what it depends on is installed first; it is built, if it is not
/// built yet; it is installed. A step that the host fails on is
/// `CompileFail`.
pub open spec fn install_run(
    package: PackageView,
    packages: Seq<PackageView>,
    depth: nat,
    replies: Seq<ReplyView>,
) -> Run<Verdict>
    decreases depth, 2nat, 0nat,
{
    let needed = depends_run(package.depends, packages, depth, replies);
    match needed.out {
        None => needed.stopped(),
        Some(Err(e)) => needed.giving(Err(e)),
        Some(Ok(())) => install_tail(package, packages, depth, replies, needed.asked),
    }
}

/// What an installation does once all that the package depends on is
/// installed, after the requests `before`: the host is asked whether the
/// package is built; if it is not, it is built, what it depends on first;
/// and the host installs it.
pub open spec fn install_tail(
    package: PackageView,
    packages: Seq<PackageView>,
    depth: nat,
    replies: Seq<ReplyView>,
    before: Seq<RequestView>,
) -> Run<Verdict>
    decreases depth, 1nat, 1nat,
{
    let probe = ask(RequestView::IsBuilt(package.name), left(replies, before)).after(before);
    match probe.out {
        None => probe.stopped(),
        Some(reply) => if reply.flag() {
            publish_run(package, replies, probe.asked)
        } else {
            let built = build_run(package, packages, depth, probe.rest(replies)).after(
                probe.asked,
            );
            match built.out {
                None => built.stopped(),
                Some(Err(e)) => built.giving(Err(e)),
                Some(Ok(())) => publish_run(package, replies, built.asked),
            }
        },
    }
}

/// The last step of an installation, after the requests `before`: the host
/// installs the package.
pub open spec fn publish_run(
    package: PackageView,
    replies: Seq<ReplyView>,
    before: Seq<RequestView>,
) -> Run<Verdict> {
    let installed = ask(RequestView::Install(package.name), left(replies, before)).after(before);
    match installed.out {
        None => installed.stopped(),
        Some(reply) => match reply.done() {
            Ok(()) => installed.giving(Ok(())),
            Err(_) => installed.giving(Err(ExecuteError::CompileFail)),
        },
    }
}

/// The run that builds `package` with `depth` levels of dependencies at
/// most: what it depends on is installed first, and the host builds it.
pub open spec fn build_run(
    package: PackageView,
    packages: Seq<PackageView>,
    depth: nat,
    replies: Seq<ReplyView>,
) -> Run<Verdict>
    decreases depth, 1nat, 0nat,
{
    let needed = depends_run(package.depends, packages, depth, replies);
    match needed.out {
        None => needed.stopped(),
        Some(Err(e)) => needed.giving(Err(e)),
        Some(Ok(())) => {
            let built = ask(RequestView::Build(package.name), needed.rest(replies)).after(
                needed.asked,
            );
            match built.out {
                None => built.stopped(),
                Some(reply) => match reply.done() {
                    Ok(()) => built.giving(Ok(())),
                    Err(_) => built.giving(Err(ExecuteError::CompileFail)),
                },
            }
        },
    }
}

/// The run that installs the packages named `names`, in order, each with
/// less than `depth` levels of dependencies. A name that no package has is
/// `NoDependFound`; with no level left there is `CyclicDepend`. The first
/// failure ends the run.
pub open spec fn depends_run(
    names: Seq<Seq<char>>,
    packages: Seq<PackageView>,
    depth: nat,
    replies: Seq<ReplyView>,
) -> Run<Verdict>
    decreases depth, 0nat, names.len(),
{
    if names.len() == 0 {
        Run::finished(Ok(()))
    } else {
        let first = depend_run(names[0], packages, depth, replies);
        if first.out == Some(Verdict::Ok(())) {
            depends_run(names.drop_first(), packages, depth, first.rest(replies)).after(
                first.asked,
            )
        } else {
            first
        }
    }
}

/// The run that installs the package named `name` as a dependency.
pub open spec fn depend_run(
    name: Seq<char>,
    packages: Seq<PackageView>,
    depth: nat,
    replies: Seq<ReplyView>,
) -> Run<Verdict>
    decreases depth, 0nat, 0nat,
{
    match lookup(packages, name) {
        None => Run::finished(Err(ExecuteError::NoDependFound)),
        Some(package) => if depth == 0 {
            Run::finished(Err(ExecuteError::CyclicDepend))
        } else {
            install_run(package, packages, (depth - 1) as nat, replies)
        },
    }
}

/// The run that removes `package`: the host uninstalls it.
pub open spec fn remove_run(package: PackageView, replies: Seq<ReplyView>) -> Run<Verdict> {
    let removed = ask(RequestView::Uninstall(package.name), replies);
    match removed.out {
        None => removed.stopped(),
        Some(reply) => match reply.done() {
            Ok(()) => removed.giving(Ok(())),
            Err(_) => removed.giving(Err(ExecuteError::UninstallFail)),
        },
    }
}

/// Installs the package named `name` as a dependency, with `depth` levels
/// left.
fn depend_at(name: &String, packages: &Vec<Package>, depth: usize, session: &mut Session) -> (out:
    Option<Result<(), ExecuteError>>)
    requires
        old(session)@.live(),
    ensures
        final(session)@.follows(
            old(session)@,
            depend_run(name@, views(packages@), depth as nat, old(session)@.unread()),
        ),
        outcome(out) == depend_run(
            name@,
            views(packages@),
            depth as nat,
            old(session)@.unread(),
        ).out,
    decreases depth, 0nat, 0nat,
{
    proof {
        assert(session@.asked + Seq::<RequestView>::empty() =~= session@.asked);
    }
    match find(packages, name) {
        None => Some(Err(ExecuteError::NoDependFound)),
        Some(i) => if depth == 0 {
            Some(Err(ExecuteError::CyclicDepend))
        } else {
            install_at(&packages[i], packages, depth - 1, session)
        },
    }
}

/// Installs the packages named `names`, in order, with `depth` levels left.
fn depends_at(names: &Vec<String>, packages: &Vec<Package>, depth: usize, session: &mut Session) -> (out:
    Option<Result<(), ExecuteError>>)
    requires
        old(session)@.live(),
    ensures
        final(session)@.follows(
            old(session)@,
            depends_run(views(names@), views(packages@), depth as nat, old(session)@.unread()),
        ),
        outcome(out) == depends_run(
            views(names@),
            views(packages@),
            depth as nat,
            old(session)@.unread(),
        ).out,
    decreases depth, 1nat, 0nat,
{
    let ghost start = session@;
    let ghost mut done: Seq<RequestView> = Seq::empty();
    let mut i: usize = 0;
    proof {
        assert(views(names@).skip(0) =~= views(names@));
        assert(start.asked + done =~= start.asked);
        lemma_after_empty(
            depends_run(views(names@), views(packages@), depth as nat, start.unread()),
        );
    }
    while i < names.len()
        invariant
            i <= names.len(),
            start == old(session)@,
            session@.replies == start.replies,
            session@.asked == start.asked + done,
            session@.live(),
            depends_run(views(names@), views(packages@), depth as nat, start.unread())
                == depends_run(
                views(names@).skip(i as int),
                views(packages@),
                depth as nat,
                session@.unread(),
            ).after(done),
        decreases names.len() - i,
    {
        let ghost mid = session@;
        let ghost first = depend_run(names[i as int]@, views(packages@), depth as nat, mid.unread());
        let step = depend_at(&names[i], packages, depth, session);
        proof {
            lemma_next_item(views(names@), i as int);
            let next = depends_run( views(names@).skip(i + 1), views(packages@), depth as nat, session@.unread(), );
            lemma_for_each(session@, mid, start, done, first, next);
        }
        match step {
            None => {
                return None;
            },
            Some(Err(e)) => {
                return Some(Err(e));
            },
            Some(Ok(())) => {},
        }
        proof {
            done = done + first.asked;
        }
        i += 1;
    }
    proof {
        assert(views(names@).skip(i as int).len() == 0);
        assert(done + Seq::<RequestView>::empty() =~= done);
    }
    Some(Ok(()))
}

/// Builds `package`, with `depth` levels of dependencies at most.
fn build_at(package: &Package, packages: &Vec<Package>, depth: usize, session: &mut Session) -> (out:
    Option<Result<(), ExecuteError>>)
    requires
        old(session)@.live(),
    ensures
        final(session)@.follows(
            old(session)@,
            build_run(package@, views(packages@), depth as nat, old(session)@.unread()),
        ),
        outcome(out) == build_run(
            package@,
            views(packages@),
            depth as nat,
            old(session)@.unread(),
        ).out,
    decreases depth, 2nat, 0nat,
{
    let ghost start = session@;
    let ghost needed = depends_run(
        package@.depends,
        views(packages@),
        depth as nat,
        start.unread(),
    );
    match depends_at(&package.depends, packages, depth, session) {
        None => {
            return None;
        },
        Some(Err(e)) => {
            return Some(Err(e));
        },
        Some(Ok(())) => {},
    }
    let ghost mid = session@;
    proof {
        lemma_follows_unread(mid, start, needed);
    }
    let built = session.ask_done(Request::Build(package.name.clone()));
    proof {
        lemma_step(
            session@,
            mid,
            start,
            needed,
            ask(RequestView::Build(package@.name), mid.unread()),
        );
    }
    match built {
        None => None,
        Some(Ok(())) => Some(Ok(())),
        Some(Err(_)) => Some(Err(ExecuteError::CompileFail)),
    }
}

/// Installs `package`, with `depth` levels of dependencies at most.
fn install_at(package: &Package, packages: &Vec<Package>, depth: usize, session: &mut Session) -> (out:
    Option<Result<(), ExecuteError>>)
    requires
        old(session)@.live(),
    ensures
        final(session)@.follows(
            old(session)@,
            install_run(package@, views(packages@), depth as nat, old(session)@.unread()),
        ),
        outcome(out) == install_run(
            package@,
            views(packages@),
            depth as nat,
            old(session)@.unread(),
        ).out,
    decreases depth, 3nat, 0nat,
{
    let ghost start = session@;
    let ghost needed = depends_run(
        package@.depends,
        views(packages@),
        depth as nat,
        start.unread(),
    );
    match depends_at(&package.depends, packages, depth, session) {
        None => {
            return None;
        },
        Some(Err(e)) => {
            return Some(Err(e));
        },
        Some(Ok(())) => {},
    }
    let ghost at_a = session@;
    proof {
        lemma_follows_unread(at_a, start, needed);
    }
    let ghost probe = ask(RequestView::IsBuilt(package@.name), at_a.unread());
    let found = session.ask_flag(Request::IsBuilt(package.name.clone()));
    let ghost at_b = session@;
    proof {
        lemma_step(at_b, at_a, start, needed, probe);
    }
    let ghost asked = probe.after(needed.asked);
    let ghost mut before = Run::<()> { asked: asked.asked, out: Some(()) };
    match found {
        None => {
            return None;
        },
        Some(true) => {},
        Some(false) => {
            let ghost built = build_run(package@, views(packages@), depth as nat, at_b.unread());
            let step = build_at(package, packages, depth, session);
            proof {
                lemma_step(session@, at_b, start, asked, built);
                before = Run::<()> { asked: built.after(asked.asked).asked, out: Some(()) };
            }
            match step {
                None => {
                    return None;
                },
                Some(Err(e)) => {
                    return Some(Err(e));
                },
                Some(Ok(())) => {},
            }
        },
    }
    let ghost at_c = session@;
    let installed = session.ask_done(Request::Install(package.name.clone()));
    proof {
        lemma_step(
            session@,
            at_c,
            start,
            before,
            ask(RequestView::Install(package@.name), at_c.unread()),
        );
    }
    match installed {
        None => None,
        Some(Ok(())) => Some(Ok(())),
        Some(Err(_)) => Some(Err(ExecuteError::CompileFail)),
    }
}

/// Builds `package`: installs what it depends on, each dependency after
/// its own, and then has the host build it. The dependencies are found by
/// name among `packages`. A chain of dependencies longer than `packages`
/// can only come from a cycle, and gives `CyclicDepend`.
pub fn build(package: &Package, packages: &Vec<Package>, session: &mut Session) -> (out: Option<
    Result<(), ExecuteError>,
>)
    requires
        old(session)@.live(),
    ensures
        final(session)@.follows(
            old(session)@,
            build_run(package@, views(packages@), packages.len() as nat, old(session)@.unread()),
        ),
        outcome(out) == build_run(
            package@,
            views(packages@),
            packages.len() as nat,
            old(session)@.unread(),
        ).out,
{
    build_at(package, packages, packages.len(), session)
}

/// Installs `package`: installs what it depends on, each dependency after
/// its own, has the host build it unless it is built, and has the host
/// install it. The dependencies are found by name among `packages`. A chain
/// of dependencies longer than `packages` can only come from a cycle, and
/// gives `CyclicDepend`.
pub fn install(package: &Package, packages: &Vec<Package>, session: &mut Session) -> (out: Option<
    Result<(), ExecuteError>,
>)
    requires
        old(session)@.live(),
    ensures
        final(session)@.follows(
            old(session)@,
            install_run(package@, views(packages@), packages.len() as nat, old(session)@.unread()),
        ),
        outcome(out) == install_run(
            package@,
            views(packages@),
            packages.len() as nat,
            old(session)@.unread(),
        ).out,
{
    install_at(package, packages, packages.len(), session)
}

/// Updates `repository`. A package that the host fails to update does not
/// end the run: the packages after it are still updated.
pub fn update(repository: &Repo, session: &mut Session) -> (out: Option<Result<(), UpdateError>>)
    requires
        old(session)@.live(),
    ensures
        final(session)@.follows(
            old(session)@,
            update_run(repository@, false, old(session)@.unread()),
        ),
        outcome(out) == update_run(repository@, false, old(session)@.unread()).out,
{
    repository.update_with(false, session)
}

/// Removes `package`: has the host uninstall it. A failure is
/// `UninstallFail`.
pub fn remove(package: &Package, session: &mut Session) -> (out: Option<Result<(), ExecuteError>>)
    requires
        old(session)@.live(),
    ensures
        final(session)@.follows(old(session)@, remove_run(package@, old(session)@.unread())),
        outcome(out) == remove_run(package@, old(session)@.unread()).out,
{
    match session.ask_done(Request::Uninstall(package.name.clone())) {
        None => None,
        Some(Ok(())) => Some(Ok(())),
        Some(Err(_)) => Some(Err(ExecuteError::UninstallFail)),
    }
}

/// Whether a search lists the package `name`: not if only installed
/// packages are asked for and it is not installed, and only if its name
/// begins with the prefix asked for, where one is.
pub open spec fn listed(
    name: Seq<char>,
    installed: bool,
    only_installed: bool,
    prefix: Option<Seq<char>>,
) -> bool {
    &&& only_installed ==> installed
    &&& prefix matches Some(p) ==> p.is_prefix_of(name)
}

/// Whether a search lists `package`, which is installed or not as
/// `installed` says.
pub fn search_lists(
    package: &Package,
    installed: bool,
    only_installed: bool,
    prefix: Option<&String>,
) -> (r: bool)
    ensures
        r == listed(
            package@.name,
            installed,
            only_installed,
            match prefix {
                Some(p) => Some(p@),
                None => None,
            },
        ),
{
    if only_installed && !installed {
        return false;
    }
    match prefix {
        Some(p) => starts_with(package.name.as_str(), p.as_str()),
        None => true,
    }
}

/// The line that a search shows for a package: its name, ` v`, its
/// version, and ` [installed]` where it is installed.
pub open spec fn search_text(package: PackageView, installed: bool) -> Seq<char> {
    let line = package.name + " v"@ + package.version;
    if installed {
        line + " [installed]"@
    } else {
        line
    }
}

/// The line that a search shows for `package`.
pub fn search_line(package: &Package, installed: bool) -> (line: String)
    ensures
        line@ == search_text(package@, installed),
{
    let mut line = concat(package.name.as_str(), " v");
    line.append(package.version.as_str());
    if installed {
        line.append(" [installed]");
    }
    line
}

} // verus!
