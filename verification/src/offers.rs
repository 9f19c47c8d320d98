//! Which packages the update of a repository has updated.
//!
//! The host is asked to update a package exactly if the package is
//! installed and the version on offer is the newer one; each such package
//! of the repository is offered once, in the order of the listing, and no
//! other request for an update is made.

use crate::error::UpdateErrorView;
use crate::package::{built_run, installed_run, PackageView, parse_run};
use crate::repo::{
    newer, packages_run, parse_each, refresh_run, update_run, upgrade_each, upgrade_one,
};
use crate::session::{ask, DirEntryView, ReplyView, RequestView};
use vstd::prelude::*;

verus! {

/// The update that is due for `package` on the replies `replies`: for the
/// package in its directory, from the version that is installed, if the
/// search finds the package installed in an older version than the one on
/// offer.
pub open spec fn offer(package: PackageView, replies: Seq<ReplyView>) -> Seq<RequestView> {
    match installed_run(package.name, replies).out {
        Some(Some(data)) => if newer(package.version, data.version) {
            seq![RequestView::Update(package.dir, data.version)]
        } else {
            Seq::empty()
        },
        _ => Seq::empty(),
    }
}

/// The updates that are due for `packages`, in order, each on the replies
/// that the update of the packages before it has left.
pub open spec fn offers(packages: Seq<PackageView>, strict: bool, replies: Seq<ReplyView>) -> Seq<
    RequestView,
>
    decreases packages.len(),
{
    if packages.len() == 0 {
        Seq::empty()
    } else {
        let first = upgrade_one(packages[0], strict, replies);
        offer(packages[0], replies) + offers(packages.drop_first(), strict, first.rest(replies))
    }
}

/// The requests for an update among `asked`, in order.
pub open spec fn updates(asked: Seq<RequestView>) -> Seq<RequestView>
    decreases asked.len(),
{
    if asked.len() == 0 {
        Seq::empty()
    } else {
        let rest = updates(asked.drop_first());
        if asked[0] is Update {
            seq![asked[0]] + rest
        } else {
            rest
        }
    }
}

/// Whether `asked` holds no request for an update.
pub open spec fn quiet(asked: Seq<RequestView>) -> bool {
    forall|i: int| 0 <= i < asked.len() ==> !(#[trigger] asked[i] is Update)
}

/// The updates of two runs in a row are those of each.
proof fn lemma_updates_join(one: Seq<RequestView>, two: Seq<RequestView>)
    ensures
        updates(one + two) == updates(one) + updates(two),
    decreases one.len(),
{
    if one.len() == 0 {
        assert(one + two =~= two);
        assert(updates(one) + updates(two) =~= updates(two));
    } else {
        lemma_updates_join(one.drop_first(), two);
        assert((one + two).drop_first() =~= one.drop_first() + two);
        assert((one + two)[0] == one[0]);
        let rest = updates(one.drop_first());
        let tail = updates(two);
        if one[0] is Update {
            assert(seq![one[0]] + (rest + tail) =~= (seq![one[0]] + rest) + tail);
        }
    }
}

/// A run without a request for an update has no updates.
proof fn lemma_quiet(asked: Seq<RequestView>)
    requires
        quiet(asked),
    ensures
        updates(asked) == Seq::<RequestView>::empty(),
    decreases asked.len(),
{
    if asked.len() > 0 {
        assert(!(asked[0] is Update));
        assert forall|i: int| 0 <= i < asked.drop_first().len() implies !(
        #[trigger] asked.drop_first()[i] is Update) by {
            assert(asked.drop_first()[i] == asked[i + 1]);
        }
        lemma_quiet(asked.drop_first());
    }
}

/// Two runs without a request for an update make one.
proof fn lemma_quiet_join(one: Seq<RequestView>, two: Seq<RequestView>)
    requires
        quiet(one),
        quiet(two),
    ensures
        quiet(one + two),
{
    assert forall|i: int| 0 <= i < (one + two).len() implies !(#[trigger] (one + two)[i]
        is Update) by {
        if i < one.len() {
            assert((one + two)[i] == one[i]);
        } else {
            assert((one + two)[i] == two[i - one.len()]);
        }
    }
}

/// The search for a built package asks for no update.
proof fn lemma_built_quiet(name: Seq<char>, replies: Seq<ReplyView>)
    ensures
        quiet(built_run(name, replies).asked),
{
    let asked = built_run(name, replies).asked;
    assert forall|i: int| 0 <= i < asked.len() implies !(#[trigger] asked[i] is Update) by {
        assert(asked.len() <= 4);
        if i == 0 {
        } else if i == 1 {
        } else if i == 2 {
        } else {
        }
    }
}

/// The search for an installed package asks for no update.
proof fn lemma_installed_quiet(name: Seq<char>, replies: Seq<ReplyView>)
    ensures
        quiet(installed_run(name, replies).asked),
{
    let built = built_run(name, replies);
    let asked = installed_run(name, replies).asked;
    lemma_built_quiet(name, replies);
    assert forall|i: int| 0 <= i < asked.len() implies !(#[trigger] asked[i] is Update) by {
        if i < built.asked.len() {
            assert(asked[i] == built.asked[i]);
        }
    }
}

/// Reading a package asks for no update.
proof fn lemma_parse_quiet(dir: Seq<char>, replies: Seq<ReplyView>)
    ensures
        quiet(parse_run(dir, replies).asked),
{
    let asked = parse_run(dir, replies).asked;
    assert forall|i: int| 0 <= i < asked.len() implies !(#[trigger] asked[i] is Update) by {
        assert(asked.len() <= 2);
        if i == 0 {
        } else {
        }
    }
}

/// Reading some packages asks for no update.
proof fn lemma_parse_each_quiet(entries: Seq<DirEntryView>, replies: Seq<ReplyView>)
    ensures
        quiet(parse_each(entries, replies).asked),
    decreases entries.len(),
{
    if entries.len() > 0 {
        let first = parse_run(entries[0].path, replies);
        lemma_parse_quiet(entries[0].path, replies);
        if first.out is Some {
            lemma_parse_each_quiet(entries.drop_first(), first.rest(replies));
            lemma_quiet_join(
                first.asked,
                parse_each(entries.drop_first(), first.rest(replies)).asked,
            );
        }
    }
}

/// Reading the packages of a repository asks for no update.
proof fn lemma_packages_quiet(dir: Seq<char>, replies: Seq<ReplyView>)
    ensures
        quiet(packages_run(dir, replies).asked),
{
    let list = ask(RequestView::ReadDir(dir), replies);
    if replies.len() > 0 {
        if let Ok(entries) = replies[0].entries() {
            lemma_parse_each_quiet(entries, list.rest(replies));
            lemma_quiet_join(list.asked, parse_each(entries, list.rest(replies)).asked);
        }
    }
}

/// The refresh of a repository asks for no update.
proof fn lemma_refresh_quiet(dir: Seq<char>, replies: Seq<ReplyView>)
    ensures
        quiet(refresh_run(dir, replies).asked),
{
    let asked = refresh_run(dir, replies).asked;
    assert forall|i: int| 0 <= i < asked.len() implies !(#[trigger] asked[i] is Update) by {
        assert(asked.len() <= 6);
        if i == 0 {
        } else if i == 1 {
        } else if i == 2 {
        } else if i == 3 {
        } else if i == 4 {
        } else {
        }
    }
}

/// What is asked for one package is the search for it and then, if an
/// update is due, the request for that update.
pub proof fn one_package_is_offered_if_due(
    package: PackageView,
    strict: bool,
    replies: Seq<ReplyView>,
)
    ensures
        upgrade_one(package, strict, replies).asked == installed_run(package.name, replies).asked
            + offer(package, replies),
        updates(upgrade_one(package, strict, replies).asked) == offer(package, replies),
        offer(package, replies).len() <= 1,
{
    let installed = installed_run(package.name, replies);
    let due = offer(package, replies);
    assert(upgrade_one(package, strict, replies).asked =~= installed.asked + due);
    lemma_installed_quiet(package.name, replies);
    lemma_quiet(installed.asked);
    lemma_updates_join(installed.asked, due);
    if due.len() > 0 {
        assert(due.drop_first() =~= Seq::<RequestView>::empty());
        assert(updates(due.drop_first()) =~= Seq::<RequestView>::empty());
        assert(updates(due) =~= due);
    }
    assert(Seq::<RequestView>::empty() + updates(due) =~= updates(due));
}

/// The updates that are asked for some packages are the updates that are
/// due for them, in order, as far as the run has come; where the run has
/// come to its end without a failure, they are all of them. So each package
/// that is due is offered once, and none that is not due.
pub proof fn packages_are_offered_if_due(
    packages: Seq<PackageView>,
    strict: bool,
    replies: Seq<ReplyView>,
)
    ensures
        updates(upgrade_each(packages, strict, replies).asked).is_prefix_of(
            offers(packages, strict, replies),
        ),
        upgrade_each(packages, strict, replies).out == Some(Ok::<(), UpdateErrorView>(()))
            ==> updates(upgrade_each(packages, strict, replies).asked) == offers(
            packages,
            strict,
            replies,
        ),
    decreases packages.len(),
{
    let run = upgrade_each(packages, strict, replies);
    let due = offers(packages, strict, replies);
    if packages.len() == 0 {
        assert(updates(run.asked) =~= due);
        assert(due.subrange(0, 0) =~= updates(run.asked));
    } else {
        let first = upgrade_one(packages[0], strict, replies);
        let mine = offer(packages[0], replies);
        let later = offers(packages.drop_first(), strict, first.rest(replies));
        one_package_is_offered_if_due(packages[0], strict, replies);
        if first.out == Some(Ok::<(), UpdateErrorView>(())) {
            let others = upgrade_each(packages.drop_first(), strict, first.rest(replies));
            packages_are_offered_if_due(packages.drop_first(), strict, first.rest(replies));
            lemma_updates_join(first.asked, others.asked);
            let got = updates(others.asked);
            assert((mine + got).is_prefix_of(mine + later)) by {
                assert((mine + later).subrange(0, (mine + got).len() as int) =~= mine + got);
            }
        } else {
            assert(mine.is_prefix_of(mine + later)) by {
                assert((mine + later).subrange(0, mine.len() as int) =~= mine);
            }
        }
    }
}

/// The updates that the update of a repository asks for are the updates
/// that are due for the packages that it has read there, in the order of
/// the listing: where the update comes to its end without a failure, each
/// package of the repository that is installed in an older version than the
/// one on offer is offered once, and no other request for an update is
/// made.
pub proof fn repository_offers_what_is_due(dir: Seq<char>, strict: bool, replies: Seq<ReplyView>)
    requires
        update_run(dir, strict, replies).out == Some(Ok::<(), UpdateErrorView>(())),
    ensures
        ({
            let refreshed = refresh_run(dir, replies);
            let read = packages_run(dir, refreshed.rest(replies)).after(refreshed.asked);
            &&& refreshed.out == Some(Ok::<(), UpdateErrorView>(()))
            &&& read.out is Some && read.out->0 is Ok
            &&& updates(update_run(dir, strict, replies).asked) == offers(
                read.out->0->Ok_0,
                strict,
                read.rest(replies),
            )
        }),
{
    let refreshed = refresh_run(dir, replies);
    let listed = packages_run(dir, refreshed.rest(replies));
    let read = listed.after(refreshed.asked);
    if refreshed.out is Some && refreshed.out->0 is Ok {
        let u = refreshed.out->0->Ok_0;
        assert(u == ());
    }
    let packages = read.out->0->Ok_0;
    let upgraded = upgrade_each(packages, strict, read.rest(replies));
    lemma_refresh_quiet(dir, replies);
    lemma_packages_quiet(dir, refreshed.rest(replies));
    lemma_quiet_join(refreshed.asked, listed.asked);
    lemma_quiet(read.asked);
    lemma_updates_join(read.asked, upgraded.asked);
    packages_are_offered_if_due(packages, strict, read.rest(replies));
    assert(update_run(dir, strict, replies).asked =~= read.asked + upgraded.asked);
    assert(Seq::<RequestView>::empty() + updates(upgraded.asked) =~= updates(upgraded.asked));
}

} // verus!
