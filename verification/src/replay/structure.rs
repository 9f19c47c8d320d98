//! The procedures of the file structure go on as they began.

use crate::session::{
    ask, continues, DirEntryView, EntryKind, lemma_ask_continues, lemma_continues_after,
    lemma_prefix_after, lemma_rest_more, lemma_stopped_continues, ReplyView, RequestView,
};
use crate::structure::{
    placed, create_each, create_one, delete_each, delete_one, Done, guarded, Linker, links_of, move_each,
    move_one, project_each, project_one, Unlinker, Visitor, walk, walk_entries, walk_entry,
    withdraw_each, withdraw_one,
};
use crate::text::joined;
use vstd::prelude::*;

verus! {

/// A guarded step goes on as it began.
pub proof fn lemma_guarded_continues(
    path: Seq<char>,
    want: bool,
    action: RequestView,
    replies: Seq<ReplyView>,
    more: Seq<ReplyView>,
)
    ensures
        continues(
            guarded(path, want, action, replies),
            guarded(path, want, action, replies + more),
            replies,
        ),
{
    let probe = ask(RequestView::Exists(path), replies);
    let longer = ask(RequestView::Exists(path), replies + more);
    lemma_ask_continues(RequestView::Exists(path), replies, more);
    if replies.len() == 0 {
        let whole = guarded(path, want, action, replies + more);
        if more.len() > 0 && longer.out->0.flag() == want {
            lemma_prefix_after(ask(action, longer.rest(replies + more)), longer.asked);
        }
        lemma_stopped_continues(probe, longer, whole, replies);
    } else if probe.out->0.flag() == want {
        lemma_rest_more(probe, replies, more);
        lemma_ask_continues(action, probe.rest(replies), more);
        lemma_continues_after(
            ask(action, probe.rest(replies)),
            ask(action, probe.rest(replies) + more),
            probe.asked,
            replies,
        );
    }
}

/// Making one directory goes on as it began.
pub proof fn lemma_create_one_continues(
    path: Seq<char>,
    replies: Seq<ReplyView>,
    more: Seq<ReplyView>,
)
    ensures
        continues(create_one(path, replies), create_one(path, replies + more), replies),
{
    lemma_guarded_continues(path, false, RequestView::CreateDirAll(path), replies, more);
}

/// `create_all` goes on as it began: run again on more replies, it asks
/// what it asked before, before it asks anything else.
pub proof fn lemma_create_continues(
    items: Seq<Seq<char>>,
    replies: Seq<ReplyView>,
    more: Seq<ReplyView>,
)
    ensures
        continues(
            create_each(items, replies),
            create_each(items, replies + more),
            replies,
        ),
    decreases items.len(),
{
    if items.len() > 0 {
        let first = create_one(items[0], replies);
        let longer = create_one(items[0], replies + more);
        lemma_create_one_continues(items[0], replies, more);
        if first.out is None {
            if longer.out == Some(Done::Ok(())) {
                lemma_prefix_after(
                    create_each(items.drop_first(), longer.rest(replies + more)),
                    longer.asked,
                );
            }
            lemma_stopped_continues(first, longer, create_each(items, replies + more), replies);
        } else if first.out == Some(Done::Ok(())) {
            lemma_rest_more(first, replies, more);
            lemma_create_continues(items.drop_first(), first.rest(replies), more);
            lemma_continues_after(
                create_each(items.drop_first(), first.rest(replies)),
                create_each(items.drop_first(), first.rest(replies) + more),
                first.asked,
                replies,
            );
        }
    }
}

/// Removing one directory goes on as it began.
pub proof fn lemma_delete_one_continues(
    path: Seq<char>,
    replies: Seq<ReplyView>,
    more: Seq<ReplyView>,
)
    ensures
        continues(delete_one(path, replies), delete_one(path, replies + more), replies),
{
    lemma_guarded_continues(path, true, RequestView::RemoveDirAll(path), replies, more);
}

/// `delete_all` goes on as it began.
pub proof fn lemma_delete_continues(
    items: Seq<Seq<char>>,
    replies: Seq<ReplyView>,
    more: Seq<ReplyView>,
)
    ensures
        continues(
            delete_each(items, replies),
            delete_each(items, replies + more),
            replies,
        ),
    decreases items.len(),
{
    if items.len() > 0 {
        let first = delete_one(items[0], replies);
        let longer = delete_one(items[0], replies + more);
        lemma_delete_one_continues(items[0], replies, more);
        if first.out is None {
            if longer.out == Some(Done::Ok(())) {
                lemma_prefix_after(
                    delete_each(items.drop_first(), longer.rest(replies + more)),
                    longer.asked,
                );
            }
            lemma_stopped_continues(first, longer, delete_each(items, replies + more), replies);
        } else if first.out == Some(Done::Ok(())) {
            lemma_rest_more(first, replies, more);
            lemma_delete_continues(items.drop_first(), first.rest(replies), more);
            lemma_continues_after(
                delete_each(items.drop_first(), first.rest(replies)),
                delete_each(items.drop_first(), first.rest(replies) + more),
                first.asked,
                replies,
            );
        }
    }
}

/// Copying one subtree goes on as it began.
pub proof fn lemma_move_one_continues(
    child: (Seq<char>, Seq<char>),
    target: Seq<char>,
    replies: Seq<ReplyView>,
    more: Seq<ReplyView>,
)
    ensures
        continues(move_one(child, target, replies), move_one(child, target, replies + more), replies),
{
    lemma_guarded_continues(
        child.0,
        true,
        RequestView::Copy(child.0, joined(target, child.1)),
        replies,
        more,
    );
}

/// `move_all` goes on as it began.
pub proof fn lemma_move_continues(
    target: Seq<char>,
    items: Seq<(Seq<char>, Seq<char>)>,
    replies: Seq<ReplyView>,
    more: Seq<ReplyView>,
)
    ensures
        continues(
            move_each(items, target, replies),
            move_each(items, target, replies + more),
            replies,
        ),
    decreases items.len(),
{
    if items.len() > 0 {
        let first = move_one(items[0], target, replies);
        let longer = move_one(items[0], target, replies + more);
        lemma_move_one_continues(items[0], target, replies, more);
        if first.out is None {
            if longer.out == Some(Done::Ok(())) {
                lemma_prefix_after(
                    move_each(items.drop_first(), target, longer.rest(replies + more)),
                    longer.asked,
                );
            }
            lemma_stopped_continues(first, longer, move_each(items, target, replies + more), replies);
        } else if first.out == Some(Done::Ok(())) {
            lemma_rest_more(first, replies, more);
            lemma_move_continues(target, items.drop_first(), first.rest(replies), more);
            lemma_continues_after(
                move_each(items.drop_first(), target, first.rest(replies)),
                move_each(items.drop_first(), target, first.rest(replies) + more),
                first.asked,
                replies,
            );
        }
    }
}

/// A walk goes on as it began: run again on more replies, it asks what it
/// asked before, before it asks anything else.
pub proof fn lemma_walk_continues<V: Visitor>(
    visitor: V::V,
    dir: Seq<char>,
    replies: Seq<ReplyView>,
    more: Seq<ReplyView>,
)
    ensures
        continues(
            walk::<V>(visitor, dir, replies),
            walk::<V>(visitor, dir, replies + more),
            replies,
        ),
    decreases replies.len(), 0nat, 0nat,
{
    let list = ask(RequestView::ReadDir(dir), replies);
    let longer = ask(RequestView::ReadDir(dir), replies + more);
    lemma_ask_continues(RequestView::ReadDir(dir), replies, more);
    if replies.len() == 0 {
        if more.len() > 0 {
            if let Ok(entries) = longer.out->0.entries() {
                let entries = placed(dir, entries);
                lemma_prefix_after(
                    walk_entries::<V>(visitor, entries, longer.rest(replies + more)),
                    longer.asked,
                );
            }
        }
        lemma_stopped_continues(list, longer, walk::<V>(visitor, dir, replies + more), replies);
    } else if let Ok(entries) = list.out->0.entries() {
        let entries = placed(dir, entries);
        lemma_rest_more(list, replies, more);
        lemma_entries_continue::<V>(visitor, entries, list.rest(replies), more);
        lemma_continues_after(
            walk_entries::<V>(visitor, entries, list.rest(replies)),
            walk_entries::<V>(visitor, entries, list.rest(replies) + more),
            list.asked,
            replies,
        );
    }
}

/// What a walk does with one entry goes on as it began.
pub proof fn lemma_entry_continues<V: Visitor>(
    visitor: V::V,
    entry: DirEntryView,
    replies: Seq<ReplyView>,
    more: Seq<ReplyView>,
)
    ensures
        continues(
            walk_entry::<V>(visitor, entry, replies),
            walk_entry::<V>(visitor, entry, replies + more),
            replies,
        ),
    decreases replies.len(), 0nat, 1nat,
{
    match entry.kind {
        EntryKind::File => {
            V::lemma_visit_continues(visitor, entry.path, replies, more);
        },
        EntryKind::Directory => {
            lemma_walk_continues::<V>(visitor, entry.path, replies, more);
        },
        EntryKind::Other => {},
    }
}

/// What a walk does with the entries of a directory goes on as it began.
pub proof fn lemma_entries_continue<V: Visitor>(
    visitor: V::V,
    items: Seq<DirEntryView>,
    replies: Seq<ReplyView>,
    more: Seq<ReplyView>,
)
    ensures
        continues(
            walk_entries::<V>(visitor, items, replies),
            walk_entries::<V>(visitor, items, replies + more),
            replies,
        ),
    decreases replies.len(), 1nat, items.len(),
{
    if items.len() > 0 {
        let first = walk_entry::<V>(visitor, items[0], replies);
        let longer = walk_entry::<V>(visitor, items[0], replies + more);
        lemma_entry_continues::<V>(visitor, items[0], replies, more);
        if first.out is None {
            if longer.out == Some(Done::Ok(())) {
                lemma_prefix_after(
                    walk_entries::<V>(visitor, items.drop_first(), longer.rest(replies + more)),
                    longer.asked,
                );
            }
            lemma_stopped_continues(first, longer, walk_entries::<V>(visitor, items, replies + more), replies);
        } else if first.out == Some(Done::Ok(())) {
            lemma_rest_more(first, replies, more);
            lemma_entries_continue::<V>(visitor, items.drop_first(), first.rest(replies), more);
            lemma_continues_after(
                walk_entries::<V>(visitor, items.drop_first(), first.rest(replies)),
                walk_entries::<V>(visitor, items.drop_first(), first.rest(replies) + more),
                first.asked,
                replies,
            );
        }
    }
}

/// Publishing one subtree goes on as it began.
pub proof fn lemma_project_one_continues(
    id: Seq<char>,
    child: (Seq<char>, Seq<char>),
    replies: Seq<ReplyView>,
    more: Seq<ReplyView>,
)
    ensures
        continues(project_one(id, child, replies), project_one(id, child, replies + more), replies),
{
    let probe = ask(RequestView::Exists(child.0), replies);
    let longer = ask(RequestView::Exists(child.0), replies + more);
    let links = links_of(id, child);
    lemma_ask_continues(RequestView::Exists(child.0), replies, more);
    if replies.len() == 0 {
        if more.len() > 0 && longer.out->0.flag() {
            lemma_prefix_after(
                walk::<Linker>(links, child.0, longer.rest(replies + more)),
                longer.asked,
            );
        }
        lemma_stopped_continues(probe, longer, project_one(id, child, replies + more), replies);
    } else if probe.out->0.flag() {
        lemma_rest_more(probe, replies, more);
        lemma_walk_continues::<Linker>(links, child.0, probe.rest(replies), more);
        lemma_continues_after(
            walk::<Linker>(links, child.0, probe.rest(replies)),
            walk::<Linker>(links, child.0, probe.rest(replies) + more),
            probe.asked,
            replies,
        );
    }
}

/// `symlink_out_scope` goes on as it began.
pub proof fn lemma_project_continues(
    id: Seq<char>,
    items: Seq<(Seq<char>, Seq<char>)>,
    replies: Seq<ReplyView>,
    more: Seq<ReplyView>,
)
    ensures
        continues(
            project_each(id, items, replies),
            project_each(id, items, replies + more),
            replies,
        ),
    decreases items.len(),
{
    if items.len() > 0 {
        let first = project_one(id, items[0], replies);
        let longer = project_one(id, items[0], replies + more);
        lemma_project_one_continues(id, items[0], replies, more);
        if first.out is None {
            if longer.out == Some(Done::Ok(())) {
                lemma_prefix_after(
                    project_each(id, items.drop_first(), longer.rest(replies + more)),
                    longer.asked,
                );
            }
            lemma_stopped_continues(first, longer, project_each(id, items, replies + more), replies);
        } else if first.out == Some(Done::Ok(())) {
            lemma_rest_more(first, replies, more);
            lemma_project_continues(id, items.drop_first(), first.rest(replies), more);
            lemma_continues_after(
                project_each(id, items.drop_first(), first.rest(replies)),
                project_each(id, items.drop_first(), first.rest(replies) + more),
                first.asked,
                replies,
            );
        }
    }
}

/// Withdrawing one subtree goes on as it began.
pub proof fn lemma_withdraw_one_continues(
    id: Seq<char>,
    child: (Seq<char>, Seq<char>),
    replies: Seq<ReplyView>,
    more: Seq<ReplyView>,
)
    ensures
        continues(withdraw_one(id, child, replies), withdraw_one(id, child, replies + more), replies),
{
    let probe = ask(RequestView::Exists(child.0), replies);
    let longer = ask(RequestView::Exists(child.0), replies + more);
    let links = links_of(id, child);
    lemma_ask_continues(RequestView::Exists(child.0), replies, more);
    if replies.len() == 0 {
        if more.len() > 0 && longer.out->0.flag() {
            lemma_prefix_after(
                walk::<Unlinker>(links, child.0, longer.rest(replies + more)),
                longer.asked,
            );
        }
        lemma_stopped_continues(probe, longer, withdraw_one(id, child, replies + more), replies);
    } else if probe.out->0.flag() {
        lemma_rest_more(probe, replies, more);
        lemma_walk_continues::<Unlinker>(links, child.0, probe.rest(replies), more);
        lemma_continues_after(
            walk::<Unlinker>(links, child.0, probe.rest(replies)),
            walk::<Unlinker>(links, child.0, probe.rest(replies) + more),
            probe.asked,
            replies,
        );
    }
}

/// `remove_symlinks` goes on as it began.
pub proof fn lemma_withdraw_continues(
    id: Seq<char>,
    items: Seq<(Seq<char>, Seq<char>)>,
    replies: Seq<ReplyView>,
    more: Seq<ReplyView>,
)
    ensures
        continues(
            withdraw_each(id, items, replies),
            withdraw_each(id, items, replies + more),
            replies,
        ),
    decreases items.len(),
{
    if items.len() > 0 {
        let first = withdraw_one(id, items[0], replies);
        let longer = withdraw_one(id, items[0], replies + more);
        lemma_withdraw_one_continues(id, items[0], replies, more);
        if first.out is None {
            if longer.out == Some(Done::Ok(())) {
                lemma_prefix_after(
                    withdraw_each(id, items.drop_first(), longer.rest(replies + more)),
                    longer.asked,
                );
            }
            lemma_stopped_continues(first, longer, withdraw_each(id, items, replies + more), replies);
        } else if first.out == Some(Done::Ok(())) {
            lemma_rest_more(first, replies, more);
            lemma_withdraw_continues(id, items.drop_first(), first.rest(replies), more);
            lemma_continues_after(
                withdraw_each(id, items.drop_first(), first.rest(replies)),
                withdraw_each(id, items.drop_first(), first.rest(replies) + more),
                first.asked,
                replies,
            );
        }
    }
}

} // verus!
