//! The order in which packages are installed.
//!
//! What a package needs is installed before the package is built, a package
//! is built once at most, and a cycle is only reported where the
//! dependencies lead back to a package.

use crate::error::ExecuteError;
use crate::handle::{build_run, depend_run, depends_run, install_run, lookup, Verdict};
use crate::package::PackageView;
use crate::session::{ask, ReplyView, RequestView};
use vstd::set_lib::{lemma_int_range, lemma_len_subset, set_int_range};
use vstd::prelude::*;

verus! {

/// Whether the package named `name` needs the package named `needed`,
/// itself or through at most `steps` packages in a row, each found under
/// its name among `packages`.
pub open spec fn depends_on(
    packages: Seq<PackageView>,
    name: Seq<char>,
    needed: Seq<char>,
    steps: nat,
) -> bool
    decreases steps,
{
    steps > 0 && match lookup(packages, name) {
        None => false,
        Some(package) => exists|i: int|
            0 <= i < package.depends.len() && (#[trigger] package.depends[i] == needed
                || depends_on(packages, package.depends[i], needed, (steps - 1) as nat)),
    }
}

/// Whether, among the first `limit` requests of `asked`, the host was asked
/// to install the package `name` and has answered that it did.
pub open spec fn installed_by(
    asked: Seq<RequestView>,
    replies: Seq<ReplyView>,
    name: Seq<char>,
    limit: int,
) -> bool {
    exists|j: int|
        0 <= j < limit && j < asked.len() && j < replies.len() && #[trigger] asked[j]
            == RequestView::Install(name) && replies[j].done() is Ok
}

/// A verdict that is `Ok` is `Ok(())`.
pub proof fn lemma_unit(out: Option<Verdict>)
    ensures
        out is Some && out->0 is Ok ==> out == Some(Verdict::Ok(())),
{
    if out is Some && out->0 is Ok {
        let u = out->0->Ok_0;
        assert(u == ());
    }
}

/// The package that is found under a name has that name.
pub proof fn lemma_lookup_name(packages: Seq<PackageView>, name: Seq<char>)
    ensures
        lookup(packages, name) matches Some(package) ==> package.name == name,
    decreases packages.len(),
{
    if packages.len() > 0 && packages[0].name != name {
        lemma_lookup_name(packages.drop_first(), name);
    }
}

/// What was installed within a part of a run was installed within the run.
proof fn lemma_lift(
    before: Seq<RequestView>,
    part: Seq<RequestView>,
    after: Seq<RequestView>,
    replies: Seq<ReplyView>,
    name: Seq<char>,
    limit: int,
)
    requires
        before.len() <= replies.len(),
        installed_by(part, replies.skip(before.len() as int), name, limit),
    ensures
        installed_by(before + part + after, replies, name, before.len() + limit),
{
    let rest = replies.skip(before.len() as int);
    let j = choose|j: int|
        0 <= j < limit && j < part.len() && j < rest.len() && #[trigger] part[j]
            == RequestView::Install(name) && rest[j].done() is Ok;
    let at = before.len() + j;
    assert((before + part + after)[at] == part[j]);
    assert(replies[at] == rest[j]);
}

/// A run of installations that has finished has had a reply to each of its
/// requests.
pub proof fn lemma_install_length(
    package: PackageView,
    packages: Seq<PackageView>,
    depth: nat,
    replies: Seq<ReplyView>,
)
    requires
        install_run(package, packages, depth, replies).out is Some,
    ensures
        install_run(package, packages, depth, replies).asked.len() <= replies.len(),
    decreases depth, 2nat, 0nat,
{
    let needed = depends_run(package.depends, packages, depth, replies);
    lemma_unit(needed.out);
    lemma_depends_length(package.depends, packages, depth, replies);
    if needed.out == Some(Verdict::Ok(())) {
        let probe = ask(RequestView::IsBuilt(package.name), needed.rest(replies)).after(
            needed.asked,
        );
        if probe.out is Some && !probe.out->0.flag() {
            lemma_unit(build_run(package, packages, depth, probe.rest(replies)).out);
            lemma_build_length(package, packages, depth, probe.rest(replies));
        }
    }
}

/// A build that has finished has had a reply to each of its requests.
pub proof fn lemma_build_length(
    package: PackageView,
    packages: Seq<PackageView>,
    depth: nat,
    replies: Seq<ReplyView>,
)
    requires
        build_run(package, packages, depth, replies).out is Some,
    ensures
        build_run(package, packages, depth, replies).asked.len() <= replies.len(),
    decreases depth, 1nat, 0nat,
{
    lemma_unit(depends_run(package.depends, packages, depth, replies).out);
    lemma_depends_length(package.depends, packages, depth, replies);
}

/// A run of dependencies that has finished has had a reply to each of its
/// requests.
pub proof fn lemma_depends_length(
    names: Seq<Seq<char>>,
    packages: Seq<PackageView>,
    depth: nat,
    replies: Seq<ReplyView>,
)
    requires
        depends_run(names, packages, depth, replies).out is Some,
    ensures
        depends_run(names, packages, depth, replies).asked.len() <= replies.len(),
    decreases depth, 0nat, names.len(),
{
    if names.len() > 0 {
        let first = depend_run(names[0], packages, depth, replies);
        lemma_depend_length(names[0], packages, depth, replies);
        if first.out == Some(Verdict::Ok(())) {
            lemma_depends_length(names.drop_first(), packages, depth, first.rest(replies));
        }
    }
}

/// The installation of a dependency that has finished has had a reply to
/// each of its requests.
pub proof fn lemma_depend_length(
    name: Seq<char>,
    packages: Seq<PackageView>,
    depth: nat,
    replies: Seq<ReplyView>,
)
    requires
        depend_run(name, packages, depth, replies).out is Some,
    ensures
        depend_run(name, packages, depth, replies).asked.len() <= replies.len(),
    decreases depth, 0nat, 0nat,
{
    if lookup(packages, name) is Some && depth > 0 {
        lemma_install_length(lookup(packages, name)->0, packages, (depth - 1) as nat, replies);
    }
}

/// An installation that has succeeded has installed the package and all
/// that it needs.
proof fn lemma_install_covers(
    package: PackageView,
    packages: Seq<PackageView>,
    depth: nat,
    replies: Seq<ReplyView>,
    needed: Seq<char>,
    steps: nat,
)
    requires
        lookup(packages, package.name) == Some(package),
        install_run(package, packages, depth, replies).out == Some(Verdict::Ok(())),
        needed == package.name || depends_on(packages, package.name, needed, steps),
    ensures
        installed_by(
            install_run(package, packages, depth, replies).asked,
            replies,
            needed,
            install_run(package, packages, depth, replies).asked.len() as int,
        ),
    decreases depth, 2nat, 0nat,
{
    let run = install_run(package, packages, depth, replies);
    let first = depends_run(package.depends, packages, depth, replies);
    lemma_install_length(package, packages, depth, replies);
    lemma_unit(first.out);
    if needed == package.name {
        let last = run.asked.len() - 1;
        assert(run.asked[last] == RequestView::Install(package.name));
        assert(replies[last].done() is Ok);
    } else {
        let i = choose|i: int|
            0 <= i < package.depends.len() && (#[trigger] package.depends[i] == needed
                || depends_on(packages, package.depends[i], needed, (steps - 1) as nat));
        lemma_depends_cover(package.depends, packages, depth, replies, i, needed, (steps - 1) as nat);
        let tail = run.asked.skip(first.asked.len() as int);
        assert(run.asked =~= Seq::<RequestView>::empty() + first.asked + tail);
        assert(replies.skip(0) =~= replies);
        lemma_lift(Seq::empty(), first.asked, tail, replies, needed, first.asked.len() as int);
    }
}

/// A run of dependencies that has succeeded has installed each of them and
/// all that each needs.
proof fn lemma_depends_cover(
    names: Seq<Seq<char>>,
    packages: Seq<PackageView>,
    depth: nat,
    replies: Seq<ReplyView>,
    i: int,
    needed: Seq<char>,
    steps: nat,
)
    requires
        depends_run(names, packages, depth, replies).out == Some(Verdict::Ok(())),
        0 <= i < names.len(),
        needed == names[i] || depends_on(packages, names[i], needed, steps),
    ensures
        installed_by(
            depends_run(names, packages, depth, replies).asked,
            replies,
            needed,
            depends_run(names, packages, depth, replies).asked.len() as int,
        ),
    decreases depth, 0nat, names.len(),
{
    let run = depends_run(names, packages, depth, replies);
    let first = depend_run(names[0], packages, depth, replies);
    let others = depends_run(names.drop_first(), packages, depth, first.rest(replies));
    assert(run.asked =~= first.asked + others.asked);
    lemma_depend_length(names[0], packages, depth, replies);
    if i == 0 {
        let package = lookup(packages, names[0])->0;
        lemma_lookup_name(packages, names[0]);
        lemma_install_covers(package, packages, (depth - 1) as nat, replies, needed, steps);
        assert(run.asked =~= Seq::<RequestView>::empty() + first.asked + others.asked);
        assert(replies.skip(0) =~= replies);
        lemma_lift(Seq::empty(), first.asked, others.asked, replies, needed, first.asked.len() as int);
    } else {
        lemma_depends_cover(
            names.drop_first(),
            packages,
            depth,
            first.rest(replies),
            i - 1,
            needed,
            steps,
        );
        assert(run.asked =~= first.asked + others.asked + Seq::<RequestView>::empty());
        lemma_lift(
            first.asked,
            others.asked,
            Seq::empty(),
            replies,
            needed,
            others.asked.len() as int,
        );
    }
}

/// Within an installation, a package is built only after all that it needs
/// has been installed.
proof fn lemma_install_orders(
    package: PackageView,
    packages: Seq<PackageView>,
    depth: nat,
    replies: Seq<ReplyView>,
    k: int,
    name: Seq<char>,
    needed: Seq<char>,
    steps: nat,
)
    requires
        lookup(packages, package.name) == Some(package),
        0 <= k < install_run(package, packages, depth, replies).asked.len(),
        install_run(package, packages, depth, replies).asked[k] == RequestView::Build(name),
        depends_on(packages, name, needed, steps),
    ensures
        installed_by(install_run(package, packages, depth, replies).asked, replies, needed, k),
    decreases depth, 2nat, 0nat,
{
    let run = install_run(package, packages, depth, replies);
    let first = depends_run(package.depends, packages, depth, replies);
    lemma_unit(first.out);
    if k < first.asked.len() {
        lemma_depends_order(package.depends, packages, depth, replies, k, name, needed, steps);
        let tail = run.asked.skip(first.asked.len() as int);
        assert(run.asked =~= Seq::<RequestView>::empty() + first.asked + tail);
        assert(replies.skip(0) =~= replies);
        lemma_lift(Seq::empty(), first.asked, tail, replies, needed, k);
    } else {
        lemma_depends_length(package.depends, packages, depth, replies);
        let probe = ask(RequestView::IsBuilt(package.name), first.rest(replies)).after(first.asked);
        assert(run.asked[first.asked.len() as int] == RequestView::IsBuilt(package.name));
        let reply = probe.out->0;
        if reply.flag() {
            assert(run.asked[probe.asked.len() as int] == RequestView::Install(package.name));
        } else {
            let built = build_run(package, packages, depth, probe.rest(replies));
            lemma_unit(built.out);
            if k < probe.asked.len() + built.asked.len() {
                lemma_build_orders(
                    package,
                    packages,
                    depth,
                    probe.rest(replies),
                    k - probe.asked.len(),
                    name,
                    needed,
                    steps,
                );
                let tail = run.asked.skip((probe.asked.len() + built.asked.len()) as int);
                assert(run.asked =~= probe.asked + built.asked + tail);
                lemma_lift(
                    probe.asked,
                    built.asked,
                    tail,
                    replies,
                    needed,
                    k - probe.asked.len(),
                );
            } else {
                assert(run.asked[(probe.asked.len() + built.asked.len()) as int] == RequestView::Install(
                    package.name,
                ));
            }
        }
    }
}

/// Within a build, a package is built only after all that it needs has been
/// installed.
proof fn lemma_build_orders(
    package: PackageView,
    packages: Seq<PackageView>,
    depth: nat,
    replies: Seq<ReplyView>,
    k: int,
    name: Seq<char>,
    needed: Seq<char>,
    steps: nat,
)
    requires
        lookup(packages, package.name) == Some(package),
        0 <= k < build_run(package, packages, depth, replies).asked.len(),
        build_run(package, packages, depth, replies).asked[k] == RequestView::Build(name),
        depends_on(packages, name, needed, steps),
    ensures
        installed_by(build_run(package, packages, depth, replies).asked, replies, needed, k),
    decreases depth, 1nat, 0nat,
{
    let run = build_run(package, packages, depth, replies);
    let first = depends_run(package.depends, packages, depth, replies);
    lemma_unit(first.out);
    let tail = run.asked.skip(first.asked.len() as int);
    assert(run.asked =~= Seq::<RequestView>::empty() + first.asked + tail);
    assert(replies.skip(0) =~= replies);
    if k < first.asked.len() {
        lemma_depends_order(package.depends, packages, depth, replies, k, name, needed, steps);
        lemma_lift(Seq::empty(), first.asked, tail, replies, needed, k);
    } else {
        assert(run.asked[first.asked.len() as int] == RequestView::Build(package.name));
        let i = choose|i: int|
            0 <= i < package.depends.len() && (#[trigger] package.depends[i] == needed
                || depends_on(packages, package.depends[i], needed, (steps - 1) as nat));
        lemma_depends_cover(package.depends, packages, depth, replies, i, needed, (steps - 1) as nat);
        lemma_lift(Seq::empty(), first.asked, tail, replies, needed, first.asked.len() as int);
    }
}

/// Within a run of dependencies, a package is built only after all that it
/// needs has been installed.
proof fn lemma_depends_order(
    names: Seq<Seq<char>>,
    packages: Seq<PackageView>,
    depth: nat,
    replies: Seq<ReplyView>,
    k: int,
    name: Seq<char>,
    needed: Seq<char>,
    steps: nat,
)
    requires
        0 <= k < depends_run(names, packages, depth, replies).asked.len(),
        depends_run(names, packages, depth, replies).asked[k] == RequestView::Build(name),
        depends_on(packages, name, needed, steps),
    ensures
        installed_by(depends_run(names, packages, depth, replies).asked, replies, needed, k),
    decreases depth, 0nat, names.len(),
{
    let run = depends_run(names, packages, depth, replies);
    let first = depend_run(names[0], packages, depth, replies);
    if k < first.asked.len() {
        let package = lookup(packages, names[0])->0;
        lemma_lookup_name(packages, names[0]);
        lemma_install_orders(
            package,
            packages,
            (depth - 1) as nat,
            replies,
            k,
            name,
            needed,
            steps,
        );
        let tail = run.asked.skip(first.asked.len() as int);
        assert(run.asked =~= Seq::<RequestView>::empty() + first.asked + tail);
        assert(replies.skip(0) =~= replies);
        lemma_lift(Seq::empty(), first.asked, tail, replies, needed, k);
    } else {
        lemma_depend_length(names[0], packages, depth, replies);
        let others = depends_run(names.drop_first(), packages, depth, first.rest(replies));
        assert(run.asked =~= first.asked + others.asked + Seq::<RequestView>::empty());
        lemma_depends_order(
            names.drop_first(),
            packages,
            depth,
            first.rest(replies),
            k - first.asked.len(),
            name,
            needed,
            steps,
        );
        lemma_lift(
            first.asked,
            others.asked,
            Seq::empty(),
            replies,
            needed,
            k - first.asked.len(),
        );
    }
}

/// What a package needs is installed before the package is built. Whenever
/// `install` has the host build a package, the host has before that been
/// asked to install each package that this one needs, itself or through
/// others, and has answered that it did. This holds of the package that is
/// installed and of every package that is built on the way.
pub proof fn dependencies_first(
    package: PackageView,
    packages: Seq<PackageView>,
    replies: Seq<ReplyView>,
    k: int,
    name: Seq<char>,
    needed: Seq<char>,
    steps: nat,
)
    requires
        lookup(packages, package.name) == Some(package),
        0 <= k < install_run(package, packages, packages.len(), replies).asked.len(),
        install_run(package, packages, packages.len(), replies).asked[k] == RequestView::Build(
            name,
        ),
        depends_on(packages, name, needed, steps),
    ensures
        installed_by(
            install_run(package, packages, packages.len(), replies).asked,
            replies,
            needed,
            k,
        ),
{
    lemma_install_orders(package, packages, packages.len(), replies, k, name, needed, steps);
}

/// Whether `package` needs the package named `needed`: whether `needed` is
/// among its dependencies, or one of these needs it through at most `steps`
/// packages in a row.
pub open spec fn needs(
    packages: Seq<PackageView>,
    package: PackageView,
    needed: Seq<char>,
    steps: nat,
) -> bool {
    exists|i: int|
        0 <= i < package.depends.len() && (#[trigger] package.depends[i] == needed || depends_on(
            packages,
            package.depends[i],
            needed,
            steps,
        ))
}

/// Where an installation of `package` asks for the build of `package`
/// itself: after what it depends on is installed, after the question
/// whether it is built, and after what it depends on is installed once
/// more.
pub open spec fn build_place(
    package: PackageView,
    packages: Seq<PackageView>,
    depth: nat,
    replies: Seq<ReplyView>,
) -> int {
    let needed = depends_run(package.depends, packages, depth, replies);
    let probe = ask(RequestView::IsBuilt(package.name), needed.rest(replies)).after(needed.asked);
    probe.asked.len() + depends_run(
        package.depends,
        packages,
        depth,
        probe.rest(replies),
    ).asked.len() as int
}

/// What is built within a run of dependencies is one of them, or needed by
/// one of them.
proof fn lemma_depends_builds(
    names: Seq<Seq<char>>,
    packages: Seq<PackageView>,
    depth: nat,
    replies: Seq<ReplyView>,
    k: int,
    name: Seq<char>,
) -> (steps: nat)
    requires
        0 <= k < depends_run(names, packages, depth, replies).asked.len(),
        depends_run(names, packages, depth, replies).asked[k] == RequestView::Build(name),
    ensures
        exists|i: int|
            0 <= i < names.len() && (#[trigger] names[i] == name || depends_on(
                packages,
                names[i],
                name,
                steps,
            )),
    decreases depth, 0nat, names.len(),
{
    let run = depends_run(names, packages, depth, replies);
    let first = depend_run(names[0], packages, depth, replies);
    if k < first.asked.len() {
        let package = lookup(packages, names[0])->0;
        lemma_lookup_name(packages, names[0]);
        assert(run.asked[k] == first.asked[k]);
        let inner = lemma_install_builds(package, packages, (depth - 1) as nat, replies, k, name);
        let steps = inner + 1;
        if name != names[0] {
            assert(depends_on(packages, names[0], name, steps)) by {
                assert(needs(packages, package, name, (steps - 1) as nat));
            }
        }
        assert(names[0] == name || depends_on(packages, names[0], name, steps));
        steps
    } else {
        lemma_depend_length(names[0], packages, depth, replies);
        let others = depends_run(names.drop_first(), packages, depth, first.rest(replies));
        assert(run.asked =~= first.asked + others.asked);
        let steps = lemma_depends_builds(
            names.drop_first(),
            packages,
            depth,
            first.rest(replies),
            k - first.asked.len(),
            name,
        );
        let i = choose|i: int|
            0 <= i < names.drop_first().len() && (#[trigger] names.drop_first()[i] == name
                || depends_on(packages, names.drop_first()[i], name, steps));
        assert(names[i + 1] == names.drop_first()[i]);
        assert(names[i + 1] == name || depends_on(packages, names[i + 1], name, steps));
        steps
    }
}

/// What is built within a build of `package` is `package`, or needed by
/// it.
proof fn lemma_build_builds(
    package: PackageView,
    packages: Seq<PackageView>,
    depth: nat,
    replies: Seq<ReplyView>,
    k: int,
    name: Seq<char>,
) -> (steps: nat)
    requires
        0 <= k < build_run(package, packages, depth, replies).asked.len(),
        build_run(package, packages, depth, replies).asked[k] == RequestView::Build(name),
    ensures
        needs(packages, package, name, steps) || (name == package.name && k == depends_run(
            package.depends,
            packages,
            depth,
            replies,
        ).asked.len()),
    decreases depth, 1nat, 0nat,
{
    let first = depends_run(package.depends, packages, depth, replies);
    lemma_unit(first.out);
    if k < first.asked.len() {
        assert(build_run(package, packages, depth, replies).asked[k] == first.asked[k]);
        lemma_depends_builds(package.depends, packages, depth, replies, k, name)
    } else {
        0
    }
}

/// What is built within an installation of `package` is needed by it, or
/// is `package` itself, at the place of its build.
proof fn lemma_install_builds(
    package: PackageView,
    packages: Seq<PackageView>,
    depth: nat,
    replies: Seq<ReplyView>,
    k: int,
    name: Seq<char>,
) -> (steps: nat)
    requires
        0 <= k < install_run(package, packages, depth, replies).asked.len(),
        install_run(package, packages, depth, replies).asked[k] == RequestView::Build(name),
    ensures
        needs(packages, package, name, steps) || (name == package.name && k == build_place(
            package,
            packages,
            depth,
            replies,
        )),
    decreases depth, 2nat, 0nat,
{
    let run = install_run(package, packages, depth, replies);
    let first = depends_run(package.depends, packages, depth, replies);
    lemma_unit(first.out);
    if k < first.asked.len() {
        assert(run.asked[k] == first.asked[k]);
        lemma_depends_builds(package.depends, packages, depth, replies, k, name)
    } else {
        lemma_depends_length(package.depends, packages, depth, replies);
        let probe = ask(RequestView::IsBuilt(package.name), first.rest(replies)).after(first.asked);
        assert(run.asked[first.asked.len() as int] == RequestView::IsBuilt(package.name));
        let reply = probe.out->0;
        if reply.flag() {
            assert(run.asked[probe.asked.len() as int] == RequestView::Install(package.name));
            0
        } else {
            let built = build_run(package, packages, depth, probe.rest(replies));
            lemma_unit(built.out);
            if k < probe.asked.len() + built.asked.len() {
                assert(run.asked[k] == built.asked[k - probe.asked.len()]);
                lemma_build_builds(
                    package,
                    packages,
                    depth,
                    probe.rest(replies),
                    k - probe.asked.len(),
                    name,
                )
            } else {
                assert(run.asked[(probe.asked.len() + built.asked.len()) as int]
                    == RequestView::Install(package.name));
                0
            }
        }
    }
}

/// A package is built once at most. Where no package that `package` needs
/// has its name, an installation of `package` asks for its build at one
/// place only.
pub proof fn built_once(
    package: PackageView,
    packages: Seq<PackageView>,
    replies: Seq<ReplyView>,
    one: int,
    other: int,
)
    requires
        forall|steps: nat| !needs(packages, package, package.name, steps),
        0 <= one < install_run(package, packages, packages.len(), replies).asked.len(),
        0 <= other < install_run(package, packages, packages.len(), replies).asked.len(),
        install_run(package, packages, packages.len(), replies).asked[one] == RequestView::Build(
            package.name,
        ),
        install_run(package, packages, packages.len(), replies).asked[other] == RequestView::Build(
            package.name,
        ),
    ensures
        one == other,
{
    let a = lemma_install_builds(package, packages, packages.len(), replies, one, package.name);
    let b = lemma_install_builds(package, packages, packages.len(), replies, other, package.name);
    assert(!needs(packages, package, package.name, a));
    assert(!needs(packages, package, package.name, b));
}

/// What `package` needs is installed before `package` is built, whether or
/// not `package` is among `packages`. Where no package that `package` needs
/// has its name, and the installation of `package` asks for its build, the
/// host has before that been asked to install each package that `package`
/// needs, and has answered that it did.
pub proof fn own_dependencies_first(
    package: PackageView,
    packages: Seq<PackageView>,
    replies: Seq<ReplyView>,
    k: int,
    needed: Seq<char>,
    steps: nat,
)
    requires
        forall|steps: nat| !needs(packages, package, package.name, steps),
        0 <= k < install_run(package, packages, packages.len(), replies).asked.len(),
        install_run(package, packages, packages.len(), replies).asked[k] == RequestView::Build(
            package.name,
        ),
        needs(packages, package, needed, steps),
    ensures
        installed_by(
            install_run(package, packages, packages.len(), replies).asked,
            replies,
            needed,
            k,
        ),
{
    let depth = packages.len();
    let run = install_run(package, packages, depth, replies);
    let first = depends_run(package.depends, packages, depth, replies);
    let own = lemma_install_builds(package, packages, depth, replies, k, package.name);
    assert(!needs(packages, package, package.name, own));
    lemma_unit(first.out);
    let i = choose|i: int|
        0 <= i < package.depends.len() && (#[trigger] package.depends[i] == needed || depends_on(
            packages,
            package.depends[i],
            needed,
            steps,
        ));
    if first.out == Some(Verdict::Ok(())) {
        lemma_depends_cover(package.depends, packages, depth, replies, i, needed, steps);
        lemma_depends_length(package.depends, packages, depth, replies);
        let tail = run.asked.skip(first.asked.len() as int);
        assert(run.asked =~= Seq::<RequestView>::empty() + first.asked + tail);
        assert(replies.skip(0) =~= replies);
        lemma_lift(Seq::empty(), first.asked, tail, replies, needed, first.asked.len() as int);
        let j = choose|j: int|
            0 <= j < first.asked.len() && j < run.asked.len() && j < replies.len()
                && #[trigger] run.asked[j] == RequestView::Install(needed) && replies[j].done()
                is Ok;
        assert(j < k);
    }
}

/// An installation that has succeeded has installed the package and all
/// that it needs, itself or through others.
pub proof fn installation_covers(
    package: PackageView,
    packages: Seq<PackageView>,
    replies: Seq<ReplyView>,
    needed: Seq<char>,
    steps: nat,
)
    requires
        lookup(packages, package.name) == Some(package),
        install_run(package, packages, packages.len(), replies).out == Some(Verdict::Ok(())),
        needed == package.name || depends_on(packages, package.name, needed, steps),
    ensures
        installed_by(
            install_run(package, packages, packages.len(), replies).asked,
            replies,
            needed,
            install_run(package, packages, packages.len(), replies).asked.len() as int,
        ),
{
    lemma_install_covers(package, packages, packages.len(), replies, needed, steps);
}

/// Whether a row of `length` dependencies starts at the package named
/// `name`: whether that package is found and, where `length` is not 0, one
/// of its dependencies starts a row of one less.
pub open spec fn chain(packages: Seq<PackageView>, name: Seq<char>, length: nat) -> bool
    decreases length,
{
    match lookup(packages, name) {
        None => false,
        Some(package) => length == 0 || exists|i: int|
            0 <= i < package.depends.len() && chain(
                packages,
                #[trigger] package.depends[i],
                (length - 1) as nat,
            ),
    }
}

/// Whether each of `names` is found among `packages` and depends on the
/// one after it.
pub open spec fn is_row(packages: Seq<PackageView>, names: Seq<Seq<char>>) -> bool {
    &&& forall|i: int| 0 <= i < names.len() ==> lookup(packages, #[trigger] names[i]) is Some
    &&& forall|i: int|
        0 <= i < names.len() - 1 ==> lookup(packages, #[trigger] names[i])->0.depends.contains(
            names[i + 1],
        )
}

/// The place of the first of `packages` that has the name `name`.
pub open spec fn place(packages: Seq<PackageView>, name: Seq<char>) -> int
    decreases packages.len(),
{
    if packages.len() == 0 || packages[0].name == name {
        0
    } else {
        1 + place(packages.drop_first(), name)
    }
}

/// The first package of a name that is found lies among the packages and has
/// that name.
proof fn lemma_place(packages: Seq<PackageView>, name: Seq<char>)
    requires
        lookup(packages, name) is Some,
    ensures
        0 <= place(packages, name) < packages.len(),
        packages[place(packages, name)].name == name,
    decreases packages.len(),
{
    if packages[0].name != name {
        lemma_place(packages.drop_first(), name);
    }
}

/// More numbers than `n`, each of them below `n`: two of them are the same.
proof fn lemma_two_alike(places: Seq<int>, n: int)
    requires
        places.len() > n >= 0,
        forall|i: int| 0 <= i < places.len() ==> 0 <= #[trigger] places[i] < n,
    ensures
        exists|a: int, b: int| 0 <= a < b < places.len() && places[a] == places[b],
{
    if places.no_duplicates() {
        places.unique_seq_to_set();
        lemma_int_range(0, n);
        assert(places.to_set().subset_of(set_int_range(0, n))) by {
            assert forall|v: int| places.to_set().contains(v) implies set_int_range(
                0,
                n,
            ).contains(v) by {
                let i = choose|i: int| 0 <= i < places.len() && places[i] == v;
                assert(0 <= places[i] < n);
            }
        }
        lemma_len_subset(places.to_set(), set_int_range(0, n));
        assert(false);
    } else {
        let (i, j) = choose|i: int, j: int|
            0 <= i < places.len() && 0 <= j < places.len() && i != j && places[i] == places[j];
        if i < j {
            assert(0 <= i < j < places.len() && places[i] == places[j]);
        } else {
            assert(0 <= j < i < places.len() && places[j] == places[i]);
        }
    }
}

/// The names along a chain.
proof fn lemma_row(packages: Seq<PackageView>, name: Seq<char>, length: nat) -> (names: Seq<
    Seq<char>,
>)
    requires
        chain(packages, name, length),
    ensures
        is_row(packages, names),
        names.len() == length + 1,
        names[0] == name,
    decreases length,
{
    if length == 0 {
        seq![name]
    } else {
        let package = lookup(packages, name)->0;
        let i = choose|i: int|
            0 <= i < package.depends.len() && chain(
                packages,
                #[trigger] package.depends[i],
                (length - 1) as nat,
            );
        let rest = lemma_row(packages, package.depends[i], (length - 1) as nat);
        let names = seq![name] + rest;
        assert forall|k: int| 0 <= k < names.len() implies lookup(packages, #[trigger] names[k])
            is Some by {
            if k > 0 {
                assert(names[k] == rest[k - 1]);
            }
        }
        assert forall|k: int| 0 <= k < names.len() - 1 implies lookup(
            packages,
            #[trigger] names[k],
        )->0.depends.contains(names[k + 1]) by {
            if k > 0 {
                assert(names[k] == rest[k - 1]);
                assert(names[k + 1] == rest[k]);
            } else {
                assert(names[1] == rest[0]);
            }
        }
        names
    }
}

/// Along a row, each package needs every package after it.
proof fn lemma_row_depends(packages: Seq<PackageView>, names: Seq<Seq<char>>, a: int, b: int)
    requires
        is_row(packages, names),
        0 <= a < b < names.len(),
    ensures
        depends_on(packages, names[a], names[b], (b - a) as nat),
    decreases b - a,
{
    let package = lookup(packages, names[a])->0;
    let i = choose|i: int| 0 <= i < package.depends.len() && package.depends[i] == names[a + 1];
    if a + 1 < b {
        lemma_row_depends(packages, names, a + 1, b);
    }
    assert(package.depends[i] == names[b] || depends_on(
        packages,
        package.depends[i],
        names[b],
        (b - a - 1) as nat,
    ));
}

/// A row of more names than there are packages holds a name that needs
/// itself.
proof fn lemma_long_row_cycles(packages: Seq<PackageView>, names: Seq<Seq<char>>)
    requires
        is_row(packages, names),
        names.len() > packages.len(),
    ensures
        exists|name: Seq<char>, steps: nat| depends_on(packages, name, name, steps),
{
    let places = Seq::new(names.len(), |i: int| place(packages, names[i]));
    assert forall|i: int| 0 <= i < places.len() implies 0 <= #[trigger] places[i]
        < packages.len() by {
        lemma_place(packages, names[i]);
    }
    lemma_two_alike(places, packages.len() as int);
    let (a, b) = choose|a: int, b: int| 0 <= a < b < places.len() && places[a] == places[b];
    lemma_place(packages, names[a]);
    lemma_place(packages, names[b]);
    assert(names[a] == names[b]);
    lemma_row_depends(packages, names, a, b);
}

/// A dependency that is reported as cyclic starts a chain of as many
/// dependencies as there were levels left.
proof fn lemma_depend_cyclic(
    name: Seq<char>,
    packages: Seq<PackageView>,
    depth: nat,
    replies: Seq<ReplyView>,
)
    requires
        depend_run(name, packages, depth, replies).out == Some(
            Verdict::Err(ExecuteError::CyclicDepend),
        ),
    ensures
        chain(packages, name, depth),
    decreases depth, 0nat, 0nat,
{
    if depth > 0 {
        let package = lookup(packages, name)->0;
        lemma_lookup_name(packages, name);
        lemma_install_cyclic(package, packages, (depth - 1) as nat, replies);
    }
}

/// Where a run of dependencies reports a cycle, one of them starts a chain
/// of as many dependencies as there were levels left.
proof fn lemma_depends_cyclic(
    names: Seq<Seq<char>>,
    packages: Seq<PackageView>,
    depth: nat,
    replies: Seq<ReplyView>,
)
    requires
        depends_run(names, packages, depth, replies).out == Some(
            Verdict::Err(ExecuteError::CyclicDepend),
        ),
    ensures
        exists|i: int| 0 <= i < names.len() && chain(packages, #[trigger] names[i], depth),
    decreases depth, 0nat, names.len(),
{
    let first = depend_run(names[0], packages, depth, replies);
    if first.out == Some(Verdict::Ok(())) {
        lemma_depends_cyclic(names.drop_first(), packages, depth, first.rest(replies));
        let i = choose|i: int|
            0 <= i < names.drop_first().len() && chain(
                packages,
                #[trigger] names.drop_first()[i],
                depth,
            );
        assert(names[i + 1] == names.drop_first()[i]);
        assert(chain(packages, names[i + 1], depth));
    } else {
        lemma_depend_cyclic(names[0], packages, depth, replies);
    }
}

/// A chain grows by the package that needs its first package.
proof fn lemma_chain_grows(packages: Seq<PackageView>, package: PackageView, depth: nat)
    requires
        lookup(packages, package.name) == Some(package),
        exists|i: int|
            0 <= i < package.depends.len() && chain(packages, #[trigger] package.depends[i], depth),
    ensures
        chain(packages, package.name, depth + 1),
{
    let i = choose|i: int|
        0 <= i < package.depends.len() && chain(packages, #[trigger] package.depends[i], depth);
    let longer = (depth + 1) as nat;
    assert(chain(packages, package.depends[i], (longer - 1) as nat));
    assert(lookup(packages, package.name)->0 == package);
    assert(chain(packages, package.name, longer) == (longer == 0 || exists|i: int|
        0 <= i < package.depends.len() && chain(
            packages,
            #[trigger] package.depends[i],
            (longer - 1) as nat,
        )));
    assert(chain(packages, package.name, longer));
}

/// A build that reports a cycle starts a chain of one dependency more than
/// there were levels left.
proof fn lemma_build_cyclic(
    package: PackageView,
    packages: Seq<PackageView>,
    depth: nat,
    replies: Seq<ReplyView>,
)
    requires
        lookup(packages, package.name) == Some(package),
        build_run(package, packages, depth, replies).out == Some(
            Verdict::Err(ExecuteError::CyclicDepend),
        ),
    ensures
        chain(packages, package.name, depth + 1),
    decreases depth, 1nat, 0nat,
{
    let needed = depends_run(package.depends, packages, depth, replies);
    lemma_unit(needed.out);
    lemma_depends_cyclic(package.depends, packages, depth, replies);
    lemma_chain_grows(packages, package, depth);
}

/// An installation that reports a cycle starts a chain of one dependency
/// more than there were levels left.
proof fn lemma_install_cyclic(
    package: PackageView,
    packages: Seq<PackageView>,
    depth: nat,
    replies: Seq<ReplyView>,
)
    requires
        lookup(packages, package.name) == Some(package),
        install_run(package, packages, depth, replies).out == Some(
            Verdict::Err(ExecuteError::CyclicDepend),
        ),
    ensures
        chain(packages, package.name, depth + 1),
    decreases depth, 2nat, 0nat,
{
    let needed = depends_run(package.depends, packages, depth, replies);
    lemma_unit(needed.out);
    if needed.out == Some(Verdict::Ok(())) {
        let probe = ask(RequestView::IsBuilt(package.name), needed.rest(replies)).after(
            needed.asked,
        );
        let built = build_run(package, packages, depth, probe.rest(replies));
        lemma_unit(built.out);
        lemma_build_cyclic(package, packages, depth, probe.rest(replies));
    } else {
        lemma_depends_cyclic(package.depends, packages, depth, replies);
        lemma_chain_grows(packages, package, depth);
    }
}

/// `CyclicDepend` is only said of a cycle: where `install` gives it, some
/// package among `packages` needs itself, through one package or more.
pub proof fn cyclic_install_has_a_cycle(
    package: PackageView,
    packages: Seq<PackageView>,
    replies: Seq<ReplyView>,
)
    requires
        lookup(packages, package.name) == Some(package),
        install_run(package, packages, packages.len(), replies).out == Some(
            Verdict::Err(ExecuteError::CyclicDepend),
        ),
    ensures
        exists|name: Seq<char>, steps: nat| depends_on(packages, name, name, steps),
{
    lemma_install_cyclic(package, packages, packages.len(), replies);
    let names = lemma_row(packages, package.name, packages.len() + 1);
    lemma_long_row_cycles(packages, names);
}

/// `CyclicDepend` is only said of a cycle: where `build` gives it, some
/// package among `packages` needs itself, through one package or more.
pub proof fn cyclic_build_has_a_cycle(
    package: PackageView,
    packages: Seq<PackageView>,
    replies: Seq<ReplyView>,
)
    requires
        lookup(packages, package.name) == Some(package),
        build_run(package, packages, packages.len(), replies).out == Some(
            Verdict::Err(ExecuteError::CyclicDepend),
        ),
    ensures
        exists|name: Seq<char>, steps: nat| depends_on(packages, name, name, steps),
{
    lemma_build_cyclic(package, packages, packages.len(), replies);
    let names = lemma_row(packages, package.name, packages.len() + 1);
    lemma_long_row_cycles(packages, names);
}

} // verus!
