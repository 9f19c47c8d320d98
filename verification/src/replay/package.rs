//! The procedures of a package go on as they began.

use crate::package::{
    build_run, built_run, first_named, install_run, installed_run, marker_file, PackageView,
    parse_run, record_run, recorded, remove_binaries_run, root, sandbox, script_run, uninstall_run,
    update_run, version_file,
};
use crate::replay::repo::lemma_install_data_continues;
use crate::replay::structure::{
    lemma_create_continues, lemma_delete_continues, lemma_guarded_continues,
    lemma_project_continues, lemma_withdraw_continues,
};
use crate::repo::install_data_run;
use crate::session::{
    ask, continues, lemma_ask_after_continues, lemma_ask_continues, lemma_continues_after,
    lemma_prefix_after, lemma_rest_more, lemma_stopped_continues, ReplyView, RequestView,
};
use crate::structure::{
    children, create_each, delete_each, guarded, installed_dir, lemma_create_length, path_bufs,
    project_each, withdraw_each,
};
use crate::text::{base_name, joined, stripped};
use vstd::prelude::*;

verus! {

/// Reading a package goes on as it began: run again on more replies, it
/// asks what it asked before, before it asks anything else.
pub proof fn lemma_parse_continues(dir: Seq<char>, replies: Seq<ReplyView>, more: Seq<ReplyView>)
    ensures
        continues(parse_run(dir, replies), parse_run(dir, replies + more), replies),
{
    let version = RequestView::ReadFile(joined(dir, "version"@));
    let depends = RequestView::ReadFile(joined(dir, "depends"@));
    let one = ask(version, replies);
    let longer = ask(version, replies + more);
    lemma_ask_continues(version, replies, more);
    if base_name(dir).len() > 0 {
        if replies.len() == 0 {
            if more.len() > 0 {
                lemma_prefix_after(ask(depends, longer.rest(replies + more)), longer.asked);
            }
            lemma_stopped_continues(one, longer, parse_run(dir, replies + more), replies);
        } else {
            lemma_rest_more(one, replies, more);
            lemma_ask_continues(depends, one.rest(replies), more);
            lemma_continues_after(
                ask(depends, one.rest(replies)),
                ask(depends, one.rest(replies) + more),
                one.asked,
                replies,
            );
        }
    }
}

/// The search for a built package goes on as it began.
pub proof fn lemma_built_continues(name: Seq<char>, replies: Seq<ReplyView>, more: Seq<ReplyView>)
    ensures
        continues(built_run(name, replies), built_run(name, replies + more), replies),
{
    let create = RequestView::CreateDirAll(root());
    let read = RequestView::ReadDir(root());
    let made = guarded(root(), false, create, replies);
    let made_more = guarded(root(), false, create, replies + more);
    lemma_guarded_continues(root(), false, create, replies, more);
    if made.out is None {
        if made_more.out is Some {
            let list = ask(read, made_more.rest(replies + more)).after(made_more.asked);
            lemma_prefix_after(ask(read, made_more.rest(replies + more)), made_more.asked);
            if list.out is Some && list.out->0.entries() is Ok {
                let entries = list.out->0.entries()->Ok_0;
                if first_named(entries, name) is Some {
                    let entry = first_named(entries, name)->0;
                    lemma_prefix_after(
                        install_data_run(entry.path, list.rest(replies + more)),
                        list.asked,
                    );
                    let data = install_data_run(entry.path, list.rest(replies + more)).after(
                        list.asked,
                    );
                    assert(made_more.asked.is_prefix_of(data.asked)) by {
                        assert(data.asked.subrange(0, made_more.asked.len() as int)
                            =~= made_more.asked);
                    }
                }
            }
        }
        lemma_stopped_continues(made, made_more, built_run(name, replies + more), replies);
    } else {
        lemma_rest_more(made, replies, more);
        lemma_ask_after_continues(read, made.asked, replies, more);
        let list = ask(read, made.rest(replies)).after(made.asked);
        let list_more = ask(read, made.rest(replies + more)).after(made.asked);
        if list.out is None {
            if list_more.out is Some && list_more.out->0.entries() is Ok {
                let entries = list_more.out->0.entries()->Ok_0;
                if first_named(entries, name) is Some {
                    let entry = first_named(entries, name)->0;
                    lemma_prefix_after(
                        install_data_run(entry.path, list_more.rest(replies + more)),
                        list_more.asked,
                    );
                }
            }
            lemma_stopped_continues(list, list_more, built_run(name, replies + more), replies);
        } else if list.out->0.entries() is Ok {
            let entries = list.out->0.entries()->Ok_0;
            if first_named(entries, name) is Some {
                let entry = first_named(entries, name)->0;
                lemma_rest_more(list, replies, more);
                lemma_install_data_continues(entry.path, list.rest(replies), more);
                lemma_continues_after(
                    install_data_run(entry.path, list.rest(replies)),
                    install_data_run(entry.path, list.rest(replies) + more),
                    list.asked,
                    replies,
                );
            }
        }
    }
}

/// The search for an installed package goes on as it began.
pub proof fn lemma_installed_continues(
    name: Seq<char>,
    replies: Seq<ReplyView>,
    more: Seq<ReplyView>,
)
    ensures
        continues(installed_run(name, replies), installed_run(name, replies + more), replies),
{
    let read = RequestView::ReadDir(installed_dir(name));
    let built = built_run(name, replies);
    let built_more = built_run(name, replies + more);
    lemma_built_continues(name, replies, more);
    if built.out is None {
        if recorded(built_more.out) {
            lemma_prefix_after(ask(read, built_more.rest(replies + more)), built_more.asked);
        }
        lemma_stopped_continues(built, built_more, installed_run(name, replies + more), replies);
    } else if recorded(built.out) {
        lemma_rest_more(built, replies, more);
        lemma_ask_after_continues(read, built.asked, replies, more);
    }
}

/// The last part of a build goes on as it began.
pub proof fn lemma_script_continues(
    package: PackageView,
    replies: Seq<ReplyView>,
    more: Seq<ReplyView>,
    before: Seq<RequestView>,
)
    requires
        before.len() <= replies.len(),
    ensures
        continues(
            script_run(package, replies, before),
            script_run(package, replies + more, before),
            replies,
        ),
        before.is_prefix_of(script_run(package, replies + more, before).asked),
{
    let files = sandbox(package.name);
    let enter = RequestView::SetCurrentDir(files);
    let start = RequestView::Spawn(joined(package.dir, "install"@), seq![files, package.dir]);
    let all = replies + more;
    let n = before.len() as int;
    let moved = ask(enter, replies.skip(n)).after(before);
    let moved_more = ask(enter, all.skip(n)).after(before);
    lemma_ask_after_continues(enter, before, replies, more);
    let started_more = ask(start, moved_more.rest(all)).after(moved_more.asked);
    let ended_more = ask(RequestView::Wait, started_more.rest(all)).after(started_more.asked);
    lemma_prefix_after(ask(start, moved_more.rest(all)), moved_more.asked);
    lemma_prefix_after(ask(RequestView::Wait, started_more.rest(all)), started_more.asked);
    assert(moved_more.asked.is_prefix_of(ended_more.asked)) by {
        assert(ended_more.asked.subrange(0, moved_more.asked.len() as int) =~= moved_more.asked);
    }
    lemma_prefix_after(ask(enter, all.skip(n)), before);
    assert(before.is_prefix_of(script_run(package, all, before).asked)) by {
        let whole = script_run(package, all, before).asked;
        assert(whole.subrange(0, n) =~= moved_more.asked.subrange(0, n));
    }
    if moved.out is None {
        lemma_stopped_continues(
            moved,
            moved_more,
            script_run(package, replies + more, before),
            replies,
        );
    } else if moved.out->0.done() is Ok {
        let started = ask(start, moved.rest(replies)).after(moved.asked);
        lemma_ask_after_continues(start, moved.asked, replies, more);
        if started.out is None {
            lemma_stopped_continues(
                started,
                started_more,
                script_run(package, replies + more, before),
                replies,
            );
        } else if started.out->0.done() is Ok {
            lemma_ask_after_continues(RequestView::Wait, started.asked, replies, more);
        }
    }
}

/// The second part of a build goes on as it began.
pub proof fn lemma_record_continues(
    package: PackageView,
    replies: Seq<ReplyView>,
    more: Seq<ReplyView>,
    before: Seq<RequestView>,
)
    requires
        before.len() <= replies.len(),
    ensures
        continues(
            record_run(package, replies, before),
            record_run(package, replies + more, before),
            replies,
        ),
        before.is_prefix_of(record_run(package, replies + more, before).asked),
{
    let file = version_file(package.name);
    let remove = RequestView::RemoveFile(file);
    let write = RequestView::WriteFile(file, stripped(package.version));
    let all = replies + more;
    let n = before.len() as int;
    let cleared = guarded(file, true, remove, replies.skip(n)).after(before);
    let cleared_more = guarded(file, true, remove, all.skip(n)).after(before);
    assert(all.skip(n) =~= replies.skip(n) + more);
    lemma_guarded_continues(file, true, remove, replies.skip(n), more);
    lemma_continues_after(
        guarded(file, true, remove, replies.skip(n)),
        guarded(file, true, remove, replies.skip(n) + more),
        before,
        replies,
    );
    let wrote_more = ask(write, cleared_more.rest(all)).after(cleared_more.asked);
    lemma_prefix_after(ask(write, cleared_more.rest(all)), cleared_more.asked);
    lemma_prefix_after(guarded(file, true, remove, all.skip(n)), before);
    let whole = record_run(package, all, before);
    if cleared_more.out is Some && wrote_more.out is Some && wrote_more.out->0.done() is Ok {
        lemma_script_continues(package, all, Seq::empty(), wrote_more.asked);
        assert(all + Seq::<ReplyView>::empty() =~= all);
        assert(cleared_more.asked.is_prefix_of(whole.asked)) by {
            assert(whole.asked.subrange(0, cleared_more.asked.len() as int)
                =~= wrote_more.asked.subrange(0, cleared_more.asked.len() as int));
        }
    }
    assert(before.is_prefix_of(whole.asked)) by {
        assert(whole.asked.subrange(0, n) =~= cleared_more.asked.subrange(0, n));
    }
    if cleared.out is None {
        lemma_stopped_continues(cleared, cleared_more, whole, replies);
    } else {
        let wrote = ask(write, cleared.rest(replies)).after(cleared.asked);
        lemma_ask_after_continues(write, cleared.asked, replies, more);
        if wrote.out is None {
            lemma_stopped_continues(wrote, wrote_more, whole, replies);
        } else if wrote.out->0.done() is Ok {
            lemma_script_continues(package, replies, more, wrote.asked);
        }
    }
}

/// A build goes on as it began: run again on more replies, it asks what it
/// asked before, before it asks anything else.
pub proof fn lemma_build_continues(
    package: PackageView,
    replies: Seq<ReplyView>,
    more: Seq<ReplyView>,
)
    ensures
        continues(build_run(package, replies), build_run(package, replies + more), replies),
{
    let paths = path_bufs(package.id);
    let made = create_each(paths, replies);
    let made_more = create_each(paths, replies + more);
    lemma_create_continues(paths, replies, more);
    if made.out is None {
        if made_more.out is Some && made_more.out->0 is Ok {
            lemma_create_length(paths, replies + more);
            lemma_record_continues(package, replies + more, Seq::empty(), made_more.asked);
            assert(replies + more + Seq::<ReplyView>::empty() =~= replies + more);
        }
        lemma_stopped_continues(made, made_more, build_run(package, replies + more), replies);
    } else if made.out->0 is Ok {
        lemma_record_continues(package, replies, more, made.asked);
    }
}

/// An installation goes on as it began.
pub proof fn lemma_install_continues(
    package: PackageView,
    replies: Seq<ReplyView>,
    more: Seq<ReplyView>,
)
    ensures
        continues(install_run(package, replies), install_run(package, replies + more), replies),
{
    let mark = RequestView::WriteFile(marker_file(package.name), Seq::empty());
    let pairs = children(package.id);
    let marked = ask(mark, replies);
    let marked_more = ask(mark, replies + more);
    lemma_ask_continues(mark, replies, more);
    if marked.out is None {
        if marked_more.out is Some {
            lemma_prefix_after(
                project_each(package.id, pairs, marked_more.rest(replies + more)),
                marked_more.asked,
            );
        }
        lemma_stopped_continues(marked, marked_more, install_run(package, replies + more), replies);
    } else {
        lemma_rest_more(marked, replies, more);
        lemma_project_continues(package.id, pairs, marked.rest(replies), more);
        lemma_continues_after(
            project_each(package.id, pairs, marked.rest(replies)),
            project_each(package.id, pairs, marked.rest(replies) + more),
            marked.asked,
            replies,
        );
    }
}

/// The removal of what is installed goes on as it began.
pub proof fn lemma_remove_binaries_continues(
    package: PackageView,
    replies: Seq<ReplyView>,
    more: Seq<ReplyView>,
)
    ensures
        continues(
            remove_binaries_run(package, replies),
            remove_binaries_run(package, replies + more),
            replies,
        ),
{
    let pairs = children(package.id);
    let paths = path_bufs(package.id);
    let withdrawn = withdraw_each(package.id, pairs, replies);
    let withdrawn_more = withdraw_each(package.id, pairs, replies + more);
    lemma_withdraw_continues(package.id, pairs, replies, more);
    if withdrawn.out is None {
        if withdrawn_more.out is Some {
            lemma_prefix_after(
                delete_each(paths, withdrawn_more.rest(replies + more)),
                withdrawn_more.asked,
            );
        }
        lemma_stopped_continues(
            withdrawn,
            withdrawn_more,
            remove_binaries_run(package, replies + more),
            replies,
        );
    } else if withdrawn.out->0 is Ok {
        lemma_rest_more(withdrawn, replies, more);
        lemma_delete_continues(paths, withdrawn.rest(replies), more);
        lemma_continues_after(
            delete_each(paths, withdrawn.rest(replies)),
            delete_each(paths, withdrawn.rest(replies) + more),
            withdrawn.asked,
            replies,
        );
    }
}

/// An uninstallation goes on as it began.
pub proof fn lemma_uninstall_continues(
    package: PackageView,
    replies: Seq<ReplyView>,
    more: Seq<ReplyView>,
)
    ensures
        continues(uninstall_run(package, replies), uninstall_run(package, replies + more), replies),
{
    let all = replies + more;
    let paths = path_bufs(package.id);
    let built = built_run(package.name, replies);
    let built_more = built_run(package.name, all);
    lemma_built_continues(package.name, replies, more);
    if recorded(built_more.out) {
        let removed_more = remove_binaries_run(package, built_more.rest(all)).after(
            built_more.asked,
        );
        lemma_prefix_after(remove_binaries_run(package, built_more.rest(all)), built_more.asked);
        if removed_more.out is Some && removed_more.out->0 is Ok {
            let deleted_more = delete_each(paths, removed_more.rest(all)).after(removed_more.asked);
            lemma_prefix_after(delete_each(paths, removed_more.rest(all)), removed_more.asked);
            assert(built_more.asked.is_prefix_of(deleted_more.asked)) by {
                assert(deleted_more.asked.subrange(0, built_more.asked.len() as int)
                    =~= built_more.asked);
            }
        }
    }
    if built.out is None {
        lemma_stopped_continues(built, built_more, uninstall_run(package, all), replies);
    } else if recorded(built.out) {
        lemma_rest_more(built, replies, more);
        let removed = remove_binaries_run(package, built.rest(replies)).after(built.asked);
        let removed_more = remove_binaries_run(package, built.rest(all)).after(built.asked);
        lemma_remove_binaries_continues(package, built.rest(replies), more);
        lemma_continues_after(
            remove_binaries_run(package, built.rest(replies)),
            remove_binaries_run(package, built.rest(replies) + more),
            built.asked,
            replies,
        );
        if removed.out is None {
            lemma_stopped_continues(removed, removed_more, uninstall_run(package, all), replies);
        } else if removed.out->0 is Ok {
            lemma_rest_more(removed, replies, more);
            lemma_delete_continues(paths, removed.rest(replies), more);
            lemma_continues_after(
                delete_each(paths, removed.rest(replies)),
                delete_each(paths, removed.rest(replies) + more),
                removed.asked,
                replies,
            );
        }
    }
}

/// An update goes on as it began.
pub proof fn lemma_update_continues(
    package: PackageView,
    replies: Seq<ReplyView>,
    more: Seq<ReplyView>,
)
    ensures
        continues(update_run(package, replies), update_run(package, replies + more), replies),
{
    let all = replies + more;
    let removed = remove_binaries_run(package, replies);
    let removed_more = remove_binaries_run(package, all);
    lemma_remove_binaries_continues(package, replies, more);
    if removed_more.out is Some && removed_more.out->0 is Ok {
        let built_more = build_run(package, removed_more.rest(all)).after(removed_more.asked);
        lemma_prefix_after(build_run(package, removed_more.rest(all)), removed_more.asked);
        if built_more.out is Some && built_more.out->0 is Ok {
            let installed_more = install_run(package, built_more.rest(all)).after(
                built_more.asked,
            );
            lemma_prefix_after(install_run(package, built_more.rest(all)), built_more.asked);
            assert(removed_more.asked.is_prefix_of(installed_more.asked)) by {
                assert(installed_more.asked.subrange(0, removed_more.asked.len() as int)
                    =~= removed_more.asked);
            }
        }
    }
    if removed.out is None {
        lemma_stopped_continues(removed, removed_more, update_run(package, all), replies);
    } else if removed.out->0 is Ok {
        lemma_rest_more(removed, replies, more);
        let built = build_run(package, removed.rest(replies)).after(removed.asked);
        let built_more = build_run(package, removed.rest(all)).after(removed.asked);
        lemma_build_continues(package, removed.rest(replies), more);
        lemma_continues_after(
            build_run(package, removed.rest(replies)),
            build_run(package, removed.rest(replies) + more),
            removed.asked,
            replies,
        );
        if built.out is None {
            lemma_stopped_continues(built, built_more, update_run(package, all), replies);
        } else if built.out->0 is Ok {
            lemma_rest_more(built, replies, more);
            lemma_install_continues(package, built.rest(replies), more);
            lemma_continues_after(
                install_run(package, built.rest(replies)),
                install_run(package, built.rest(replies) + more),
                built.asked,
                replies,
            );
        }
    }
}

} // verus!
