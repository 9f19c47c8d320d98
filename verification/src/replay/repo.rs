//! The procedures of a repository go on as they began.

use crate::error::UpdateErrorView;
use crate::package::{installed_run, PackageView, parse_run};
use crate::replay::package::{lemma_installed_continues, lemma_parse_continues};
use crate::repo::{
    install_data_run, newer, packages_run, parse_each, refresh_run, script_run, update_run,
    upgrade_each, upgrade_one,
};
use crate::session::{
    ask, continues, DirEntryView, FailureView, lemma_ask_after_continues, lemma_ask_continues,
    lemma_continues_after, lemma_prefix_after, lemma_rest_more, lemma_stopped_continues, ReplyView,
    RequestView,
};
use crate::text::joined;
use vstd::prelude::*;

verus! {

/// Reading a record goes on as it began.
pub proof fn lemma_install_data_continues(
    path: Seq<char>,
    replies: Seq<ReplyView>,
    more: Seq<ReplyView>,
)
    ensures
        continues(install_data_run(path, replies), install_data_run(path, replies + more), replies),
{
    lemma_ask_continues(RequestView::ReadFile(joined(path, "version"@)), replies, more);
}

/// Reading some packages goes on as it began.
pub proof fn lemma_parse_each_continues(
    entries: Seq<DirEntryView>,
    replies: Seq<ReplyView>,
    more: Seq<ReplyView>,
)
    ensures
        continues(parse_each(entries, replies), parse_each(entries, replies + more), replies),
    decreases entries.len(),
{
    if entries.len() > 0 {
        let all = replies + more;
        let first = parse_run(entries[0].path, replies);
        let first_more = parse_run(entries[0].path, all);
        lemma_parse_continues(entries[0].path, replies, more);
        if first.out is None {
            if first_more.out is Some {
                lemma_prefix_after(
                    parse_each(entries.drop_first(), first_more.rest(all)),
                    first_more.asked,
                );
            }
            lemma_stopped_continues(first, first_more, parse_each(entries, all), replies);
        } else {
            lemma_rest_more(first, replies, more);
            lemma_parse_each_continues(entries.drop_first(), first.rest(replies), more);
            lemma_continues_after(
                parse_each(entries.drop_first(), first.rest(replies)),
                parse_each(entries.drop_first(), first.rest(replies) + more),
                first.asked,
                replies,
            );
        }
    }
}

/// Reading the packages of a repository goes on as it began: run again on
/// more replies, it asks what it asked before, before it asks anything
/// else.
pub proof fn lemma_packages_continues(
    dir: Seq<char>,
    replies: Seq<ReplyView>,
    more: Seq<ReplyView>,
)
    ensures
        continues(packages_run(dir, replies), packages_run(dir, replies + more), replies),
{
    let all = replies + more;
    let read = RequestView::ReadDir(dir);
    let list = ask(read, replies);
    let list_more = ask(read, all);
    lemma_ask_continues(read, replies, more);
    if list.out is None {
        if list_more.out is Some && list_more.out->0.entries() is Ok {
            lemma_prefix_after(
                parse_each(list_more.out->0.entries()->Ok_0, list_more.rest(all)),
                list_more.asked,
            );
        }
        lemma_stopped_continues(list, list_more, packages_run(dir, all), replies);
    } else if list.out->0.entries() is Ok {
        let entries = list.out->0.entries()->Ok_0;
        lemma_rest_more(list, replies, more);
        lemma_parse_each_continues(entries, list.rest(replies), more);
        lemma_continues_after(
            parse_each(entries, list.rest(replies)),
            parse_each(entries, list.rest(replies) + more),
            list.asked,
            replies,
        );
    }
}

/// The update of one package goes on as it began.
pub proof fn lemma_upgrade_one_continues(
    package: PackageView,
    strict: bool,
    replies: Seq<ReplyView>,
    more: Seq<ReplyView>,
)
    ensures
        continues(
            upgrade_one(package, strict, replies),
            upgrade_one(package, strict, replies + more),
            replies,
        ),
{
    let all = replies + more;
    let installed = installed_run(package.name, replies);
    let installed_more = installed_run(package.name, all);
    lemma_installed_continues(package.name, replies, more);
    if installed.out is None {
        if installed_more.out is Some && installed_more.out->0 is Some {
            let data = installed_more.out->0->0;
            lemma_prefix_after(
                ask(RequestView::Update(package.dir, data.version), installed_more.rest(all)),
                installed_more.asked,
            );
        }
        lemma_stopped_continues(
            installed,
            installed_more,
            upgrade_one(package, strict, all),
            replies,
        );
    } else if installed.out->0 is Some {
        let data = installed.out->0->0;
        if newer(package.version, data.version) {
            lemma_rest_more(installed, replies, more);
            lemma_ask_after_continues(
                RequestView::Update(package.dir, data.version),
                installed.asked,
                replies,
                more,
            );
        }
    }
}

/// The update of some packages goes on as it began.
pub proof fn lemma_upgrade_continues(
    packages: Seq<PackageView>,
    strict: bool,
    replies: Seq<ReplyView>,
    more: Seq<ReplyView>,
)
    ensures
        continues(
            upgrade_each(packages, strict, replies),
            upgrade_each(packages, strict, replies + more),
            replies,
        ),
    decreases packages.len(),
{
    if packages.len() > 0 {
        let all = replies + more;
        let first = upgrade_one(packages[0], strict, replies);
        let first_more = upgrade_one(packages[0], strict, all);
        lemma_upgrade_one_continues(packages[0], strict, replies, more);
        if first.out is None {
            if first_more.out == Some(Ok::<(), UpdateErrorView>(())) {
                lemma_prefix_after(
                    upgrade_each(packages.drop_first(), strict, first_more.rest(all)),
                    first_more.asked,
                );
            }
            lemma_stopped_continues(first, first_more, upgrade_each(packages, strict, all), replies);
        } else if first.out == Some(Ok::<(), UpdateErrorView>(())) {
            lemma_rest_more(first, replies, more);
            lemma_upgrade_continues(packages.drop_first(), strict, first.rest(replies), more);
            lemma_continues_after(
                upgrade_each(packages.drop_first(), strict, first.rest(replies)),
                upgrade_each(packages.drop_first(), strict, first.rest(replies) + more),
                first.asked,
                replies,
            );
        }
    }
}

/// The second part of a refresh goes on as it began.
pub proof fn lemma_script_continues(
    script: Seq<char>,
    place: Result<Seq<char>, FailureView>,
    replies: Seq<ReplyView>,
    more: Seq<ReplyView>,
    before: Seq<RequestView>,
)
    requires
        before.len() <= replies.len(),
    ensures
        continues(
            script_run(script, place, replies, before),
            script_run(script, place, replies + more, before),
            replies,
        ),
        before.is_prefix_of(script_run(script, place, replies + more, before).asked),
{
    let all = replies + more;
    let n = before.len() as int;
    let start = RequestView::Spawn(script, Seq::empty());
    let started = ask(start, replies.skip(n)).after(before);
    let started_more = ask(start, all.skip(n)).after(before);
    lemma_ask_after_continues(start, before, replies, more);
    let ended_more = ask(RequestView::Wait, started_more.rest(all)).after(started_more.asked);
    lemma_prefix_after(ask(start, all.skip(n)), before);
    lemma_prefix_after(ask(RequestView::Wait, started_more.rest(all)), started_more.asked);
    let whole = script_run(script, place, all, before);
    if place is Ok {
        let back = RequestView::SetCurrentDir(place->Ok_0);
        let returned_more = ask(back, ended_more.rest(all)).after(ended_more.asked);
        lemma_prefix_after(ask(back, ended_more.rest(all)), ended_more.asked);
        assert(started_more.asked.is_prefix_of(returned_more.asked)) by {
            assert(returned_more.asked.subrange(0, started_more.asked.len() as int)
                =~= started_more.asked);
        }
    }
    assert(before.is_prefix_of(whole.asked)) by {
        assert(whole.asked.subrange(0, n) =~= started_more.asked.subrange(0, n));
    }
    if started.out is None {
        lemma_stopped_continues(started, started_more, whole, replies);
    } else if started.out->0.done() is Ok {
        let ended = ask(RequestView::Wait, started.rest(replies)).after(started.asked);
        lemma_ask_after_continues(RequestView::Wait, started.asked, replies, more);
        if ended.out is None {
            lemma_stopped_continues(ended, ended_more, whole, replies);
        } else if ended.out->0.done() is Ok && place is Ok {
            lemma_ask_after_continues(
                RequestView::SetCurrentDir(place->Ok_0),
                ended.asked,
                replies,
                more,
            );
        }
    }
}

/// A refresh goes on as it began.
pub proof fn lemma_refresh_continues(
    dir: Seq<char>,
    replies: Seq<ReplyView>,
    more: Seq<ReplyView>,
)
    ensures
        continues(refresh_run(dir, replies), refresh_run(dir, replies + more), replies),
{
    let all = replies + more;
    let script = joined(dir, "update"@);
    let look = RequestView::Exists(script);
    let enter = RequestView::SetCurrentDir(dir);
    let probe = ask(look, replies);
    let probe_more = ask(look, all);
    lemma_ask_continues(look, replies, more);
    let saved_more = ask(RequestView::CurrentDir, probe_more.rest(all)).after(probe_more.asked);
    let moved_more = ask(enter, saved_more.rest(all)).after(saved_more.asked);
    lemma_prefix_after(ask(RequestView::CurrentDir, probe_more.rest(all)), probe_more.asked);
    lemma_prefix_after(ask(enter, saved_more.rest(all)), saved_more.asked);
    let whole = refresh_run(dir, all);
    if probe_more.out is Some && saved_more.out is Some && moved_more.out is Some {
        lemma_script_continues(
            script,
            saved_more.out->0.text(),
            all,
            Seq::empty(),
            moved_more.asked,
        );
        assert(all + Seq::<ReplyView>::empty() =~= all);
    }
    assert(probe_more.out is Some && probe_more.out->0.flag() ==> saved_more.asked.is_prefix_of(
        whole.asked,
    )) by {
        if probe_more.out is Some && probe_more.out->0.flag() {
            assert(whole.asked.subrange(0, saved_more.asked.len() as int)
                =~= moved_more.asked.subrange(0, saved_more.asked.len() as int));
        }
    }
    assert(probe_more.asked.is_prefix_of(whole.asked)) by {
        if probe_more.out is Some && probe_more.out->0.flag() {
            assert(whole.asked.subrange(0, probe_more.asked.len() as int)
                =~= saved_more.asked.subrange(0, probe_more.asked.len() as int));
        } else {
            assert(whole.asked.subrange(0, probe_more.asked.len() as int) =~= probe_more.asked);
        }
    }
    if probe.out is None {
        lemma_stopped_continues(probe, probe_more, whole, replies);
    } else if probe.out->0.flag() {
        let saved = ask(RequestView::CurrentDir, probe.rest(replies)).after(probe.asked);
        lemma_ask_after_continues(RequestView::CurrentDir, probe.asked, replies, more);
        if saved.out is None {
            lemma_stopped_continues(saved, saved_more, whole, replies);
        } else {
            let moved = ask(enter, saved.rest(replies)).after(saved.asked);
            lemma_ask_after_continues(enter, saved.asked, replies, more);
            if moved.out is None {
                lemma_stopped_continues(moved, moved_more, whole, replies);
            } else if moved.out->0.done() is Ok {
                lemma_script_continues(script, saved.out->0.text(), replies, more, moved.asked);
            }
        }
    }
}

/// The update of a repository goes on as it began: run again on more
/// replies, it asks what it asked before, before it asks anything else.
pub proof fn lemma_update_continues(
    dir: Seq<char>,
    strict: bool,
    replies: Seq<ReplyView>,
    more: Seq<ReplyView>,
)
    ensures
        continues(update_run(dir, strict, replies), update_run(dir, strict, replies + more), replies),
{
    let all = replies + more;
    let refreshed = refresh_run(dir, replies);
    let refreshed_more = refresh_run(dir, all);
    lemma_refresh_continues(dir, replies, more);
    if refreshed_more.out is Some && refreshed_more.out->0 is Ok {
        let read_more = packages_run(dir, refreshed_more.rest(all)).after(refreshed_more.asked);
        lemma_prefix_after(packages_run(dir, refreshed_more.rest(all)), refreshed_more.asked);
        if read_more.out is Some && read_more.out->0 is Ok {
            let upgraded_more = upgrade_each(
                read_more.out->0->Ok_0,
                strict,
                read_more.rest(all),
            ).after(read_more.asked);
            lemma_prefix_after(
                upgrade_each(read_more.out->0->Ok_0, strict, read_more.rest(all)),
                read_more.asked,
            );
            assert(refreshed_more.asked.is_prefix_of(upgraded_more.asked)) by {
                assert(upgraded_more.asked.subrange(0, refreshed_more.asked.len() as int)
                    =~= refreshed_more.asked);
            }
        }
    }
    if refreshed.out is None {
        lemma_stopped_continues(refreshed, refreshed_more, update_run(dir, strict, all), replies);
    } else if refreshed.out->0 is Ok {
        lemma_rest_more(refreshed, replies, more);
        let read = packages_run(dir, refreshed.rest(replies)).after(refreshed.asked);
        let read_more = packages_run(dir, refreshed.rest(all)).after(refreshed.asked);
        lemma_packages_continues(dir, refreshed.rest(replies), more);
        lemma_continues_after(
            packages_run(dir, refreshed.rest(replies)),
            packages_run(dir, refreshed.rest(replies) + more),
            refreshed.asked,
            replies,
        );
        if read.out is None {
            lemma_stopped_continues(read, read_more, update_run(dir, strict, all), replies);
        } else if read.out->0 is Ok {
            let packages = read.out->0->Ok_0;
            lemma_rest_more(read, replies, more);
            lemma_upgrade_continues(packages, strict, read.rest(replies), more);
            lemma_continues_after(
                upgrade_each(packages, strict, read.rest(replies)),
                upgrade_each(packages, strict, read.rest(replies) + more),
                read.asked,
                replies,
            );
        }
    }
}

} // verus!
