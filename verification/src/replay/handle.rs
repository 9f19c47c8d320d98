//! The commands go on as they began.

use crate::handle::{
    build_run, depend_run, depends_run, install_run, install_tail, lookup, publish_run, remove_run,
    Verdict,
};
use crate::order::{lemma_build_length, lemma_depends_length, lemma_unit};
use crate::package::PackageView;
use crate::session::{
    ask, continues, lemma_ask_after_continues, lemma_ask_continues, lemma_continues_after,
    lemma_prefix_after, lemma_rest_more, lemma_stopped_continues, ReplyView, RequestView,
};
use vstd::prelude::*;

verus! {

/// The last step of an installation goes on as it began.
pub proof fn lemma_publish_continues(
    package: PackageView,
    replies: Seq<ReplyView>,
    more: Seq<ReplyView>,
    before: Seq<RequestView>,
)
    requires
        before.len() <= replies.len(),
    ensures
        continues(
            publish_run(package, replies, before),
            publish_run(package, replies + more, before),
            replies,
        ),
        before.is_prefix_of(publish_run(package, replies + more, before).asked),
{
    let n = before.len() as int;
    lemma_ask_after_continues(RequestView::Install(package.name), before, replies, more);
    lemma_prefix_after(ask(RequestView::Install(package.name), (replies + more).skip(n)), before);
}

/// An installation goes on as it began: run again on more replies, it asks
/// what it asked before, before it asks anything else.
pub proof fn lemma_install_continues(
    package: PackageView,
    packages: Seq<PackageView>,
    depth: nat,
    replies: Seq<ReplyView>,
    more: Seq<ReplyView>,
)
    ensures
        continues(
            install_run(package, packages, depth, replies),
            install_run(package, packages, depth, replies + more),
            replies,
        ),
    decreases depth, 2nat, 0nat,
{
    let all = replies + more;
    let look = RequestView::IsBuilt(package.name);
    let needed = depends_run(package.depends, packages, depth, replies);
    let needed_more = depends_run(package.depends, packages, depth, all);
    let whole = install_run(package, packages, depth, all);
    lemma_depends_continues(package.depends, packages, depth, replies, more);
    lemma_unit(needed.out);
    lemma_unit(needed_more.out);
    if needed_more.out == Some(Verdict::Ok(())) {
        lemma_depends_length(package.depends, packages, depth, all);
        lemma_install_tail(package, packages, depth, all, Seq::empty(), needed_more.asked);
        assert(all + Seq::<ReplyView>::empty() =~= all);
    }
    if needed.out is None {
        lemma_stopped_continues(needed, needed_more, whole, replies);
    } else if needed.out == Some(Verdict::Ok(())) {
        lemma_install_tail(package, packages, depth, replies, more, needed.asked);
    }
}

/// What an installation does after the dependencies goes on as it began.
pub proof fn lemma_install_tail(
    package: PackageView,
    packages: Seq<PackageView>,
    depth: nat,
    replies: Seq<ReplyView>,
    more: Seq<ReplyView>,
    before: Seq<RequestView>,
)
    requires
        before.len() <= replies.len(),
    ensures
        continues(
            install_tail(package, packages, depth, replies, before),
            install_tail(package, packages, depth, replies + more, before),
            replies,
        ),
        before.is_prefix_of(install_tail(package, packages, depth, replies + more, before).asked),
    decreases depth, 1nat, 1nat,
{
    let all = replies + more;
    let n = before.len() as int;
    let look = RequestView::IsBuilt(package.name);
    let probe = ask(look, replies.skip(n)).after(before);
    let probe_more = ask(look, all.skip(n)).after(before);
    let whole = install_tail(package, packages, depth, all, before);
    lemma_ask_after_continues(look, before, replies, more);
    lemma_prefix_after(ask(look, all.skip(n)), before);
    if probe_more.out is Some {
        if probe_more.out->0.flag() {
            lemma_publish_continues(package, all, Seq::empty(), probe_more.asked);
        } else {
            let built_more = build_run(package, packages, depth, probe_more.rest(all)).after(
                probe_more.asked,
            );
            lemma_prefix_after(
                build_run(package, packages, depth, probe_more.rest(all)),
                probe_more.asked,
            );
            lemma_unit(built_more.out);
            if built_more.out == Some(Verdict::Ok(())) {
                lemma_build_length(package, packages, depth, probe_more.rest(all));
                lemma_publish_continues(package, all, Seq::empty(), built_more.asked);
                assert(probe_more.asked.is_prefix_of(whole.asked)) by {
                    assert(whole.asked.subrange(0, probe_more.asked.len() as int)
                        =~= built_more.asked.subrange(0, probe_more.asked.len() as int));
                }
            }
        }
        assert(all + Seq::<ReplyView>::empty() =~= all);
    }
    assert(before.is_prefix_of(whole.asked)) by {
        assert(whole.asked.subrange(0, n) =~= probe_more.asked.subrange(0, n));
    }
    if probe.out is None {
        lemma_stopped_continues(probe, probe_more, whole, replies);
    } else if probe.out->0.flag() {
        lemma_publish_continues(package, replies, more, probe.asked);
    } else {
        let built = build_run(package, packages, depth, probe.rest(replies)).after(probe.asked);
        let built_more = build_run(package, packages, depth, probe.rest(all)).after(probe.asked);
        lemma_rest_more(probe, replies, more);
        lemma_build_continues(package, packages, depth, probe.rest(replies), more);
        lemma_continues_after(
            build_run(package, packages, depth, probe.rest(replies)),
            build_run(package, packages, depth, probe.rest(replies) + more),
            probe.asked,
            replies,
        );
        lemma_unit(built.out);
        if built.out is None {
            lemma_stopped_continues(built, built_more, whole, replies);
        } else if built.out == Some(Verdict::Ok(())) {
            lemma_publish_continues(package, replies, more, built.asked);
        }
    }
}

/// A build goes on as it began: run again on more replies, it asks what it
/// asked before, before it asks anything else.
pub proof fn lemma_build_continues(
    package: PackageView,
    packages: Seq<PackageView>,
    depth: nat,
    replies: Seq<ReplyView>,
    more: Seq<ReplyView>,
)
    ensures
        continues(
            build_run(package, packages, depth, replies),
            build_run(package, packages, depth, replies + more),
            replies,
        ),
    decreases depth, 1nat, 0nat,
{
    let all = replies + more;
    let make = RequestView::Build(package.name);
    let needed = depends_run(package.depends, packages, depth, replies);
    let needed_more = depends_run(package.depends, packages, depth, all);
    lemma_depends_continues(package.depends, packages, depth, replies, more);
    lemma_unit(needed.out);
    lemma_unit(needed_more.out);
    if needed.out is None {
        if needed_more.out == Some(Verdict::Ok(())) {
            lemma_prefix_after(ask(make, needed_more.rest(all)), needed_more.asked);
        }
        lemma_stopped_continues(
            needed,
            needed_more,
            build_run(package, packages, depth, all),
            replies,
        );
    } else if needed.out == Some(Verdict::Ok(())) {
        lemma_rest_more(needed, replies, more);
        lemma_ask_after_continues(make, needed.asked, replies, more);
    }
}

/// The installation of dependencies goes on as it began.
pub proof fn lemma_depends_continues(
    names: Seq<Seq<char>>,
    packages: Seq<PackageView>,
    depth: nat,
    replies: Seq<ReplyView>,
    more: Seq<ReplyView>,
)
    ensures
        continues(
            depends_run(names, packages, depth, replies),
            depends_run(names, packages, depth, replies + more),
            replies,
        ),
    decreases depth, 0nat, names.len(),
{
    if names.len() > 0 {
        let all = replies + more;
        let first = depend_run(names[0], packages, depth, replies);
        let first_more = depend_run(names[0], packages, depth, all);
        if lookup(packages, names[0]) is Some && depth > 0 {
            lemma_install_continues(
                lookup(packages, names[0])->0,
                packages,
                (depth - 1) as nat,
                replies,
                more,
            );
        }
        if first.out is None {
            if first_more.out == Some(Verdict::Ok(())) {
                lemma_prefix_after(
                    depends_run(names.drop_first(), packages, depth, first_more.rest(all)),
                    first_more.asked,
                );
            }
            lemma_stopped_continues(
                first,
                first_more,
                depends_run(names, packages, depth, all),
                replies,
            );
        } else if first.out == Some(Verdict::Ok(())) {
            lemma_rest_more(first, replies, more);
            lemma_depends_continues(names.drop_first(), packages, depth, first.rest(replies), more);
            lemma_continues_after(
                depends_run(names.drop_first(), packages, depth, first.rest(replies)),
                depends_run(names.drop_first(), packages, depth, first.rest(replies) + more),
                first.asked,
                replies,
            );
        }
    }
}

/// A removal goes on as it began.
pub proof fn lemma_remove_continues(
    package: PackageView,
    replies: Seq<ReplyView>,
    more: Seq<ReplyView>,
)
    ensures
        continues(remove_run(package, replies), remove_run(package, replies + more), replies),
{
    lemma_ask_continues(RequestView::Uninstall(package.name), replies, more);
}

} // verus!
