//! What is published of a package is what is withdrawn of it.
//!
//! `symlink_out_scope` and `remove_symlinks` walk the same sandbox in the
//! same way, and where the one asks for a link the other asks for its
//! removal. This module states that, that every file gets a link of its
//! own, and when each of the two can fail.

use crate::error::FileStructureErrorView;
use crate::session::{ask, DirEntryView, EntryKind, FailureKind, ReplyView, RequestView};
use crate::structure::{
    placed, children, Done, link_one, link_path, Linker, Links, links_of, made_or_there, project_each,
    project_one, Unlinker, walk, walk_entries, walk_entry, withdraw_each, withdraw_one,
};
use crate::text::{
    above, joined, last_component, lemma_pieces_hold_no_sep, lemma_pieces_nonempty, pieces,
};
use vstd::prelude::*;

verus! {

/// Whether `request` asks about the sandbox, rather than for a link or a
/// directory to be made or a link to be removed.
pub open spec fn is_question(request: RequestView) -> bool {
    request is Exists || request is ReadDir
}

/// What a withdrawal asks for where a projection asked `asked`: the same
/// questions; for each link that was to be made, that it be removed; and
/// nothing for a directory that was to be made.
pub open spec fn withdrawn(asked: Seq<RequestView>) -> Seq<RequestView>
    decreases asked.len(),
{
    if asked.len() == 0 {
        Seq::empty()
    } else {
        let rest = withdrawn(asked.drop_first());
        match asked[0] {
            RequestView::CreateDirAll(_) => rest,
            RequestView::Symlink(_, link) => seq![RequestView::RemoveFile(link)] + rest,
            other => seq![other] + rest,
        }
    }
}

/// The replies that the host gave to those of the requests `asked` that a
/// withdrawal makes too: all but those to a directory that was to be made.
pub open spec fn kept(asked: Seq<RequestView>, replies: Seq<ReplyView>) -> Seq<ReplyView>
    decreases asked.len(),
{
    if asked.len() == 0 || replies.len() == 0 {
        Seq::empty()
    } else {
        let rest = kept(asked.drop_first(), replies.drop_first());
        if asked[0] is CreateDirAll {
            rest
        } else {
            seq![replies[0]] + rest
        }
    }
}

/// Whether `other` answers each request of `asked`, and answers the
/// questions among them as `replies` does: whether the host shows the same
/// sandbox both times.
pub open spec fn same_answers(
    asked: Seq<RequestView>,
    replies: Seq<ReplyView>,
    other: Seq<ReplyView>,
) -> bool {
    &&& asked.len() <= other.len()
    &&& forall|k: int|
        0 <= k < asked.len() && is_question(#[trigger] asked[k]) ==> k < replies.len() && other[k]
            == replies[k]
}

/// What is withdrawn of two runs in a row is what is withdrawn of each.
proof fn lemma_withdrawn_join(one: Seq<RequestView>, two: Seq<RequestView>)
    ensures
        withdrawn(one + two) == withdrawn(one) + withdrawn(two),
    decreases one.len(),
{
    if one.len() == 0 {
        assert(one + two =~= two);
        assert(withdrawn(one) + withdrawn(two) =~= withdrawn(two));
    } else {
        lemma_withdrawn_join(one.drop_first(), two);
        assert((one + two).drop_first() =~= one.drop_first() + two);
        assert((one + two)[0] == one[0]);
        let rest = withdrawn(one.drop_first());
        let tail = withdrawn(two);
        match one[0] {
            RequestView::CreateDirAll(_) => {},
            RequestView::Symlink(_, link) => {
                assert(seq![RequestView::RemoveFile(link)] + (rest + tail) =~= (seq![
                    RequestView::RemoveFile(link),
                ] + rest) + tail);
            },
            other => {
                assert(seq![other] + (rest + tail) =~= (seq![other] + rest) + tail);
            },
        }
    }
}

/// The replies kept of two runs in a row are those kept of each, and there
/// is one for each request that is withdrawn.
proof fn lemma_kept_join(one: Seq<RequestView>, two: Seq<RequestView>, replies: Seq<ReplyView>)
    requires
        one.len() <= replies.len(),
    ensures
        kept(one + two, replies) == kept(one, replies) + kept(two, replies.skip(one.len() as int)),
        kept(one, replies).len() == withdrawn(one).len(),
    decreases one.len(),
{
    if one.len() == 0 {
        assert(one + two =~= two);
        assert(replies.skip(0) =~= replies);
        assert(kept(one, replies) + kept(two, replies) =~= kept(two, replies));
    } else {
        lemma_kept_join(one.drop_first(), two, replies.drop_first());
        assert((one + two).drop_first() =~= one.drop_first() + two);
        assert((one + two)[0] == one[0]);
        assert(replies.drop_first().skip(one.len() - 1) =~= replies.skip(one.len() as int));
        let rest = kept(one.drop_first(), replies.drop_first());
        let tail = kept(two, replies.skip(one.len() as int));
        if !(one[0] is CreateDirAll) {
            assert(seq![replies[0]] + (rest + tail) =~= (seq![replies[0]] + rest) + tail);
        }
    }
}

/// A question is withdrawn as it is, and its reply is kept.
proof fn lemma_question_kept(question: RequestView, replies: Seq<ReplyView>)
    requires
        is_question(question),
        replies.len() > 0,
    ensures
        withdrawn(seq![question]) == seq![question],
        kept(seq![question], replies) == seq![replies[0]],
{
    let one = seq![question];
    assert(one.drop_first() =~= Seq::<RequestView>::empty());
    assert(withdrawn(one.drop_first()) =~= Seq::<RequestView>::empty());
    assert(kept(one.drop_first(), replies.drop_first()) =~= Seq::<ReplyView>::empty());
    assert(withdrawn(one) =~= seq![question]);
    assert(kept(one, replies) =~= seq![replies[0]]);
}

/// Answers that agree on a run agree on its first part, and on what follows
/// that part.
proof fn lemma_same_answers_split(
    one: Seq<RequestView>,
    two: Seq<RequestView>,
    first: Seq<ReplyView>,
    second: Seq<ReplyView>,
    other: Seq<ReplyView>,
)
    requires
        same_answers(one + two, first + second, other),
        first.len() == one.len(),
    ensures
        same_answers(one, first, other),
        same_answers(two, second, other.skip(one.len() as int)),
{
    let n = one.len() as int;
    assert forall|k: int| 0 <= k < one.len() && is_question(#[trigger] one[k]) implies k
        < first.len() && other[k] == first[k] by {
        assert((one + two)[k] == one[k]);
        assert((first + second)[k] == first[k]);
    }
    assert forall|k: int| 0 <= k < two.len() && is_question(#[trigger] two[k]) implies k
        < second.len() && other.skip(n)[k] == second[k] by {
        assert((one + two)[n + k] == two[k]);
        assert((first + second)[n + k] == second[k]);
    }
}

/// What a projection has done with an entry has been answered.
proof fn lemma_entry_length(links: Links, entry: DirEntryView, replies: Seq<ReplyView>)
    requires
        walk_entry::<Linker>(links, entry, replies).out is Some,
    ensures
        walk_entry::<Linker>(links, entry, replies).asked.len() <= replies.len(),
    decreases replies.len(), 0nat, 1nat,
{
    if entry.kind == EntryKind::Directory {
        lemma_walk_length(links, entry.path, replies);
    }
}

/// What a projection has done below a directory has been answered.
proof fn lemma_walk_length(links: Links, dir: Seq<char>, replies: Seq<ReplyView>)
    requires
        walk::<Linker>(links, dir, replies).out is Some,
    ensures
        walk::<Linker>(links, dir, replies).asked.len() <= replies.len(),
    decreases replies.len(), 0nat, 0nat,
{
    if let Ok(entries) = replies[0].entries() {
        let entries = placed(dir, entries);
        lemma_entries_length(links, entries, replies.skip(1));
    }
}

/// What a projection has done with the entries of a directory has been
/// answered.
proof fn lemma_entries_length(links: Links, entries: Seq<DirEntryView>, replies: Seq<ReplyView>)
    requires
        walk_entries::<Linker>(links, entries, replies).out is Some,
    ensures
        walk_entries::<Linker>(links, entries, replies).asked.len() <= replies.len(),
    decreases replies.len(), 1nat, entries.len(),
{
    if entries.len() > 0 {
        let first = walk_entry::<Linker>(links, entries[0], replies);
        lemma_entry_length(links, entries[0], replies);
        if first.out == Some(Done::Ok(())) {
            lemma_entries_length(links, entries.drop_first(), first.rest(replies));
        }
    }
}

/// What a projection has done with a subtree has been answered.
proof fn lemma_subtree_length(id: Seq<char>, child: (Seq<char>, Seq<char>), replies: Seq<ReplyView>)
    requires
        project_one(id, child, replies).out is Some,
    ensures
        project_one(id, child, replies).asked.len() <= replies.len(),
{
    if replies[0].flag() {
        lemma_walk_length(links_of(id, child), child.0, replies.skip(1));
    }
}

/// The withdrawal below one directory is the projection below it,
/// withdrawn.
proof fn lemma_walk_mirrors(
    links: Links,
    dir: Seq<char>,
    replies: Seq<ReplyView>,
    other: Seq<ReplyView>,
)
    requires
        walk::<Linker>(links, dir, replies).out == Some(Done::Ok(())),
        same_answers(
            withdrawn(walk::<Linker>(links, dir, replies).asked),
            kept(walk::<Linker>(links, dir, replies).asked, replies),
            other,
        ),
    ensures
        walk::<Unlinker>(links, dir, other).out == Some(Done::Ok(())),
        walk::<Unlinker>(links, dir, other).asked == withdrawn(
            walk::<Linker>(links, dir, replies).asked,
        ),
    decreases replies.len(), 0nat, 0nat,
{
    let list = ask(RequestView::ReadDir(dir), replies);
    let published = walk::<Linker>(links, dir, replies);
    lemma_walk_length(links, dir, replies);
    lemma_question_kept(RequestView::ReadDir(dir), replies);
    match replies[0].entries() {
        Err(_) => {
            assert(published.asked =~= list.asked);
            assert(withdrawn(published.asked)[0] == RequestView::ReadDir(dir));
            assert(other[0] == replies[0]);
        },
        Ok(entries) => {
            let entries = placed(dir, entries);
            let inner = walk_entries::<Linker>(links, entries, replies.skip(1));
            assert(published.asked =~= list.asked + inner.asked);
            lemma_withdrawn_join(list.asked, inner.asked);
            lemma_kept_join(list.asked, inner.asked, replies);
            lemma_same_answers_split(
                list.asked,
                withdrawn(inner.asked),
                seq![replies[0]],
                kept(inner.asked, replies.skip(1)),
                other,
            );
            assert(list.asked[0] == RequestView::ReadDir(dir));
            assert(other[0] == replies[0]);
            lemma_entries_mirror(links, entries, replies.skip(1), other.skip(1));
        },
    }
}

/// The withdrawal over the entries of a directory is the projection over
/// them, withdrawn.
proof fn lemma_entries_mirror(
    links: Links,
    entries: Seq<DirEntryView>,
    replies: Seq<ReplyView>,
    other: Seq<ReplyView>,
)
    requires
        walk_entries::<Linker>(links, entries, replies).out == Some(Done::Ok(())),
        same_answers(
            withdrawn(walk_entries::<Linker>(links, entries, replies).asked),
            kept(walk_entries::<Linker>(links, entries, replies).asked, replies),
            other,
        ),
    ensures
        walk_entries::<Unlinker>(links, entries, other).out == Some(Done::Ok(())),
        walk_entries::<Unlinker>(links, entries, other).asked == withdrawn(
            walk_entries::<Linker>(links, entries, replies).asked,
        ),
    decreases replies.len(), 1nat, entries.len(),
{
    if entries.len() > 0 {
        let first = walk_entry::<Linker>(links, entries[0], replies);
        let published = walk_entries::<Linker>(links, entries, replies);
        assert(first.out == Some(Done::Ok(())));
        let others = walk_entries::<Linker>(links, entries.drop_first(), first.rest(replies));
        assert(published.asked =~= first.asked + others.asked);
        lemma_entry_length(links, entries[0], replies);
        lemma_withdrawn_join(first.asked, others.asked);
        lemma_kept_join(first.asked, others.asked, replies);
        lemma_same_answers_split(
            withdrawn(first.asked),
            withdrawn(others.asked),
            kept(first.asked, replies),
            kept(others.asked, first.rest(replies)),
            other,
        );
        lemma_entry_mirrors(links, entries[0], replies, other);
        let undone = walk_entry::<Unlinker>(links, entries[0], other);
        lemma_entries_mirror(links, entries.drop_first(), first.rest(replies), undone.rest(other));
    } else {
        assert(withdrawn(Seq::<RequestView>::empty()) =~= Seq::<RequestView>::empty());
    }
}

/// The withdrawal of one entry is its projection, withdrawn.
proof fn lemma_entry_mirrors(
    links: Links,
    entry: DirEntryView,
    replies: Seq<ReplyView>,
    other: Seq<ReplyView>,
)
    requires
        walk_entry::<Linker>(links, entry, replies).out == Some(Done::Ok(())),
        same_answers(
            withdrawn(walk_entry::<Linker>(links, entry, replies).asked),
            kept(walk_entry::<Linker>(links, entry, replies).asked, replies),
            other,
        ),
    ensures
        walk_entry::<Unlinker>(links, entry, other).out == Some(Done::Ok(())),
        walk_entry::<Unlinker>(links, entry, other).asked == withdrawn(
            walk_entry::<Linker>(links, entry, replies).asked,
        ),
    decreases replies.len(), 0nat, 1nat,
{
    match entry.kind {
        EntryKind::File => {
            let place = link_path(links, entry.path);
            let asked = link_one(links, entry.path, replies).asked;
            assert(asked =~= seq![
                RequestView::CreateDirAll(above(place)),
                RequestView::Symlink(entry.path, place),
            ]);
            lemma_withdrawn_link(above(place), entry.path, place);
        },
        EntryKind::Directory => {
            lemma_walk_mirrors(links, entry.path, replies, other);
        },
        EntryKind::Other => {
            assert(withdrawn(Seq::<RequestView>::empty()) =~= Seq::<RequestView>::empty());
        },
    }
}

/// For a directory and a link that were to be made, the link is to be
/// removed.
proof fn lemma_withdrawn_link(dir: Seq<char>, file: Seq<char>, place: Seq<char>)
    ensures
        withdrawn(seq![RequestView::CreateDirAll(dir), RequestView::Symlink(file, place)]) == seq![
            RequestView::RemoveFile(place),
        ],
{
    let both = seq![RequestView::CreateDirAll(dir), RequestView::Symlink(file, place)];
    let link = seq![RequestView::Symlink(file, place)];
    assert(both.drop_first() =~= link);
    assert(link.drop_first() =~= Seq::<RequestView>::empty());
    assert(withdrawn(link.drop_first()) =~= Seq::<RequestView>::empty());
    assert(withdrawn(link) =~= seq![RequestView::RemoveFile(place)]);
}

/// The withdrawal of some subtrees is their projection, withdrawn.
proof fn lemma_subtrees_mirror(
    id: Seq<char>,
    pairs: Seq<(Seq<char>, Seq<char>)>,
    replies: Seq<ReplyView>,
    other: Seq<ReplyView>,
)
    requires
        project_each(id, pairs, replies).out == Some(Done::Ok(())),
        same_answers(
            withdrawn(project_each(id, pairs, replies).asked),
            kept(project_each(id, pairs, replies).asked, replies),
            other,
        ),
    ensures
        withdraw_each(id, pairs, other).out == Some(Done::Ok(())),
        withdraw_each(id, pairs, other).asked == withdrawn(project_each(id, pairs, replies).asked),
    decreases pairs.len(),
{
    if pairs.len() > 0 {
        let first = project_one(id, pairs[0], replies);
        let published = project_each(id, pairs, replies);
        assert(first.out == Some(Done::Ok(())));
        let others = project_each(id, pairs.drop_first(), first.rest(replies));
        assert(published.asked =~= first.asked + others.asked);
        lemma_subtree_length(id, pairs[0], replies);
        lemma_withdrawn_join(first.asked, others.asked);
        lemma_kept_join(first.asked, others.asked, replies);
        lemma_same_answers_split(
            withdrawn(first.asked),
            withdrawn(others.asked),
            kept(first.asked, replies),
            kept(others.asked, first.rest(replies)),
            other,
        );
        lemma_subtree_mirrors(id, pairs[0], replies, other);
        let undone = withdraw_one(id, pairs[0], other);
        lemma_subtrees_mirror(id, pairs.drop_first(), first.rest(replies), undone.rest(other));
    } else {
        assert(withdrawn(Seq::<RequestView>::empty()) =~= Seq::<RequestView>::empty());
    }
}

/// The withdrawal of one subtree is its projection, withdrawn.
proof fn lemma_subtree_mirrors(
    id: Seq<char>,
    child: (Seq<char>, Seq<char>),
    replies: Seq<ReplyView>,
    other: Seq<ReplyView>,
)
    requires
        project_one(id, child, replies).out == Some(Done::Ok(())),
        same_answers(
            withdrawn(project_one(id, child, replies).asked),
            kept(project_one(id, child, replies).asked, replies),
            other,
        ),
    ensures
        withdraw_one(id, child, other).out == Some(Done::Ok(())),
        withdraw_one(id, child, other).asked == withdrawn(project_one(id, child, replies).asked),
{
    let probe = ask(RequestView::Exists(child.0), replies);
    let published = project_one(id, child, replies);
    lemma_question_kept(RequestView::Exists(child.0), replies);
    if replies[0].flag() {
        let links = links_of(id, child);
        let inner = walk::<Linker>(links, child.0, replies.skip(1));
        assert(published.asked =~= probe.asked + inner.asked);
        lemma_withdrawn_join(probe.asked, inner.asked);
        lemma_kept_join(probe.asked, inner.asked, replies);
        lemma_same_answers_split(
            probe.asked,
            withdrawn(inner.asked),
            seq![replies[0]],
            kept(inner.asked, replies.skip(1)),
            other,
        );
        assert(probe.asked[0] == RequestView::Exists(child.0));
        assert(other[0] == replies[0]);
        lemma_walk_mirrors(links, child.0, replies.skip(1), other.skip(1));
    } else {
        assert(published.asked =~= probe.asked);
        assert(withdrawn(published.asked)[0] == RequestView::Exists(child.0));
        assert(other[0] == replies[0]);
    }
}

/// The withdrawal is the projection in reverse. Where `symlink_out_scope`
/// has succeeded, `remove_symlinks` on a host that shows the same sandbox
/// succeeds too, and asks in the same order the same questions and, for
/// each link that `symlink_out_scope` asked for, that the link be removed.
/// So no link that was made for the package is left.
pub proof fn withdrawal_mirrors_projection(
    id: Seq<char>,
    replies: Seq<ReplyView>,
    other: Seq<ReplyView>,
)
    requires
        project_each(id, children(id), replies).out == Some(Done::Ok(())),
        same_answers(
            withdrawn(project_each(id, children(id), replies).asked),
            kept(project_each(id, children(id), replies).asked, replies),
            other,
        ),
    ensures
        withdraw_each(id, children(id), other).out == Some(Done::Ok(())),
        withdraw_each(id, children(id), other).asked == withdrawn(
            project_each(id, children(id), replies).asked,
        ),
{
    lemma_subtrees_mirror(id, children(id), replies, other);
}

/// Whether, in the run that asked `asked` and was answered `replies`, the
/// link to `file` was asked for at its place, and the host answered that it
/// was made or stood already.
pub open spec fn linked(
    asked: Seq<RequestView>,
    replies: Seq<ReplyView>,
    links: Links,
    file: Seq<char>,
) -> bool {
    exists|m: int|
        0 <= m < asked.len() && m < replies.len() && #[trigger] asked[m] == RequestView::Symlink(
            file,
            link_path(links, file),
        ) && made_or_there(replies[m])
}

/// Whether a projection with the links `links` may make `request`: a
/// question about the sandbox; a link to a file below the subtree, which
/// stands below the directory of the links as the file lies below the
/// subtree; or the directory that is to hold such a link. Nothing is
/// removed or written, and nothing is made but at the places of the links.
pub open spec fn fits(request: RequestView, links: Links) -> bool {
    match request {
        RequestView::Exists(_) => true,
        RequestView::ReadDir(_) => true,
        RequestView::Symlink(file, link) => links.root.is_prefix_of(file) && link == links.dir
            + file.skip(links.root.len() as int),
        RequestView::CreateDirAll(dir) => exists|file: Seq<char>|
            dir == above(#[trigger] link_path(links, file)),
        _ => false,
    }
}

/// Whether a projection with the links `links` may make each of `asked`.
pub open spec fn in_place(asked: Seq<RequestView>, links: Links) -> bool {
    forall|m: int| 0 <= m < asked.len() ==> fits(#[trigger] asked[m], links)
}

/// What was linked within a part of a run was linked within the run.
proof fn lemma_linked_lift(
    before: Seq<RequestView>,
    part: Seq<RequestView>,
    after: Seq<RequestView>,
    replies: Seq<ReplyView>,
    links: Links,
    file: Seq<char>,
)
    requires
        before.len() <= replies.len(),
        linked(part, replies.skip(before.len() as int), links, file),
    ensures
        linked(before + part + after, replies, links, file),
{
    let rest = replies.skip(before.len() as int);
    let m = choose|m: int|
        0 <= m < part.len() && m < rest.len() && #[trigger] part[m] == RequestView::Symlink(
            file,
            link_path(links, file),
        ) && made_or_there(rest[m]);
    let at = before.len() + m;
    assert((before + part + after)[at] == part[m]);
    assert(replies[at] == rest[m]);
}

/// Links that stand in place in two runs stand in place in the two in a
/// row.
proof fn lemma_in_place_join(one: Seq<RequestView>, two: Seq<RequestView>, links: Links)
    requires
        in_place(one, links),
        in_place(two, links),
    ensures
        in_place(one + two, links),
{
    assert forall|m: int| 0 <= m < (one + two).len() implies fits(
        #[trigger] (one + two)[m],
        links,
    ) by {
        if m < one.len() {
            assert((one + two)[m] == one[m]);
        } else {
            assert((one + two)[m] == two[m - one.len()]);
        }
    }
}

/// An entry as the walk takes it lies below the directory in whose
/// listing it stands.
pub proof fn lemma_placed_below(dir: Seq<char>, entries: Seq<DirEntryView>, i: int)
    requires
        0 <= i < entries.len(),
    ensures
        dir.is_prefix_of(placed(dir, entries)[i].path),
{
    let name = last_component(entries[i].path);
    let parts = pieces(entries[i].path, '/');
    lemma_pieces_nonempty(entries[i].path, '/');
    lemma_pieces_hold_no_sep(entries[i].path, '/', parts.len() - 1);
    if name.len() > 0 {
        assert(name.contains(name[0]));
    }
    let path = joined(dir, name);
    assert(path.subrange(0, dir.len() as int) =~= dir);
}

/// What lies below a directory lies below what the directory lies below.
proof fn lemma_below(root: Seq<char>, dir: Seq<char>, path: Seq<char>)
    requires
        root.is_prefix_of(dir),
        dir.is_prefix_of(path),
    ensures
        root.is_prefix_of(path),
{
    assert(path.subrange(0, root.len() as int) =~= dir.subrange(0, root.len() as int));
}

/// Every request of the projection below a directory of the subtree is one
/// that a projection may make.
proof fn lemma_walk_in_place(links: Links, dir: Seq<char>, replies: Seq<ReplyView>)
    requires
        links.root.is_prefix_of(dir),
    ensures
        in_place(walk::<Linker>(links, dir, replies).asked, links),
    decreases replies.len(), 0nat, 0nat,
{
    let list = ask(RequestView::ReadDir(dir), replies);
    if replies.len() > 0 {
        if let Ok(entries) = replies[0].entries() {
            let listed = entries;
            let entries = placed(dir, entries);
            assert forall|i: int| 0 <= i < entries.len() implies links.root.is_prefix_of(
                #[trigger] entries[i].path,
            ) by {
                lemma_placed_below(dir, listed, i);
                lemma_below(links.root, dir, entries[i].path);
            }
            lemma_entries_in_place(links, entries, replies.skip(1));
            lemma_in_place_join(
                list.asked,
                walk_entries::<Linker>(links, entries, replies.skip(1)).asked,
                links,
            );
        }
    }
}

/// Every request of the projection over entries of the subtree is one that
/// a projection may make.
proof fn lemma_entries_in_place(links: Links, entries: Seq<DirEntryView>, replies: Seq<ReplyView>)
    requires
        forall|i: int| 0 <= i < entries.len() ==> links.root.is_prefix_of(
            #[trigger] entries[i].path,
        ),
    ensures
        in_place(walk_entries::<Linker>(links, entries, replies).asked, links),
    decreases replies.len(), 1nat, entries.len(),
{
    if entries.len() > 0 {
        let first = walk_entry::<Linker>(links, entries[0], replies);
        assert(links.root.is_prefix_of(entries[0].path));
        match entries[0].kind {
            EntryKind::Directory => {
                lemma_walk_in_place(links, entries[0].path, replies);
            },
            EntryKind::File => {
                let place = link_path(links, entries[0].path);
                assert(fits(RequestView::CreateDirAll(above(place)), links));
                assert(fits(RequestView::Symlink(entries[0].path, place), links));
                assert forall|m: int| 0 <= m < first.asked.len() implies fits(
                    #[trigger] first.asked[m],
                    links,
                ) by {
                    if m == 0 {
                    } else {
                    }
                }
            },
            EntryKind::Other => {},
        }
        if first.out == Some(Done::Ok(())) {
            assert forall|i: int| 0 <= i < entries.drop_first().len() implies links.root.is_prefix_of(
                #[trigger] entries.drop_first()[i].path,
            ) by {
                assert(entries.drop_first()[i] == entries[i + 1]);
            }
            lemma_entries_in_place(links, entries.drop_first(), first.rest(replies));
            lemma_in_place_join(
                first.asked,
                walk_entries::<Linker>(links, entries.drop_first(), first.rest(replies)).asked,
                links,
            );
        }
    }
}

/// `symlink_out_scope` only asks about the sandbox and makes links: every
/// link that it asks for, for a subtree, is to a file below the subtree and
/// stands below the directory of the links of that subtree as its file
/// lies below the subtree, and every directory that it asks for is one
/// that is to hold such a link. It removes nothing and writes nothing. As
/// no two files of a subtree have their link at the same place, each file
/// has a link of its own.
pub proof fn projection_links_in_place(
    id: Seq<char>,
    child: (Seq<char>, Seq<char>),
    replies: Seq<ReplyView>,
)
    ensures
        in_place(project_one(id, child, replies).asked, links_of(id, child)),
{
    let probe = ask(RequestView::Exists(child.0), replies);
    assert(child.0.is_prefix_of(child.0)) by {
        assert(child.0.subrange(0, child.0.len() as int) =~= child.0);
    }
    if replies.len() > 0 && replies[0].flag() {
        lemma_walk_in_place(links_of(id, child), child.0, replies.skip(1));
        lemma_in_place_join(
            probe.asked,
            walk::<Linker>(links_of(id, child), child.0, replies.skip(1)).asked,
            links_of(id, child),
        );
    }
}

/// After a walk that succeeded, each file among the entries is linked.
proof fn lemma_entries_linked(
    links: Links,
    entries: Seq<DirEntryView>,
    replies: Seq<ReplyView>,
    j: int,
)
    requires
        walk_entries::<Linker>(links, entries, replies).out == Some(Done::Ok(())),
        0 <= j < entries.len(),
        entries[j].kind == EntryKind::File,
    ensures
        linked(walk_entries::<Linker>(links, entries, replies).asked, replies, links, entries[j].path),
    decreases replies.len(), 1nat, entries.len(),
{
    let run = walk_entries::<Linker>(links, entries, replies);
    let first = walk_entry::<Linker>(links, entries[0], replies);
    let others = walk_entries::<Linker>(links, entries.drop_first(), first.rest(replies));
    assert(first.out == Some(Done::Ok(())));
    lemma_entry_length(links, entries[0], replies);
    if j == 0 {
        assert(first.asked[1] == RequestView::Symlink(
            entries[0].path,
            link_path(links, entries[0].path),
        ));
        assert(made_or_there(replies[1]));
        assert(run.asked =~= Seq::<RequestView>::empty() + first.asked + others.asked);
        assert(replies.skip(0) =~= replies);
        lemma_linked_lift(Seq::empty(), first.asked, others.asked, replies, links, entries[0].path);
    } else {
        lemma_entries_linked(links, entries.drop_first(), first.rest(replies), j - 1);
        assert(run.asked =~= first.asked + others.asked + Seq::<RequestView>::empty());
        lemma_linked_lift(first.asked, others.asked, Seq::empty(), replies, links, entries[j].path);
    }
}

/// After a walk that succeeded, each file of each listing is linked.
proof fn lemma_walk_links(
    links: Links,
    dir: Seq<char>,
    replies: Seq<ReplyView>,
    k: int,
    at: Seq<char>,
    j: int,
)
    requires
        walk::<Linker>(links, dir, replies).out == Some(Done::Ok(())),
        0 <= k < walk::<Linker>(links, dir, replies).asked.len(),
        walk::<Linker>(links, dir, replies).asked[k] == RequestView::ReadDir(at),
        k < replies.len(),
        replies[k].entries() is Ok,
        0 <= j < replies[k].entries()->Ok_0.len(),
        replies[k].entries()->Ok_0[j].kind == EntryKind::File,
    ensures
        linked(
            walk::<Linker>(links, dir, replies).asked,
            replies,
            links,
            placed(at, replies[k].entries()->Ok_0)[j].path,
        ),
    decreases replies.len(), 0nat, 0nat,
{
    let list = ask(RequestView::ReadDir(dir), replies);
    let run = walk::<Linker>(links, dir, replies);
    let file = placed(at, replies[k].entries()->Ok_0)[j].path;
    lemma_walk_length(links, dir, replies);
    if replies[0].entries() is Ok {
        let entries = placed(dir, replies[0].entries()->Ok_0);
        let inner = walk_entries::<Linker>(links, entries, replies.skip(1));
        assert(run.asked =~= list.asked + inner.asked + Seq::<RequestView>::empty());
        if k == 0 {
            assert(run.asked[0] == RequestView::ReadDir(dir));
            lemma_entries_linked(links, entries, replies.skip(1), j);
        } else {
            assert(inner.asked[k - 1] == run.asked[k]);
            assert(replies.skip(1)[k - 1] == replies[k]);
            lemma_entries_links(links, entries, replies.skip(1), k - 1, at, j);
        }
        lemma_linked_lift(list.asked, inner.asked, Seq::empty(), replies, links, file);
    }
}

/// After a walk over entries that succeeded, each file of each listing
/// that the walk asked for is linked.
proof fn lemma_entries_links(
    links: Links,
    entries: Seq<DirEntryView>,
    replies: Seq<ReplyView>,
    k: int,
    at: Seq<char>,
    j: int,
)
    requires
        walk_entries::<Linker>(links, entries, replies).out == Some(Done::Ok(())),
        0 <= k < walk_entries::<Linker>(links, entries, replies).asked.len(),
        walk_entries::<Linker>(links, entries, replies).asked[k] == RequestView::ReadDir(at),
        k < replies.len(),
        replies[k].entries() is Ok,
        0 <= j < replies[k].entries()->Ok_0.len(),
        replies[k].entries()->Ok_0[j].kind == EntryKind::File,
    ensures
        linked(
            walk_entries::<Linker>(links, entries, replies).asked,
            replies,
            links,
            placed(at, replies[k].entries()->Ok_0)[j].path,
        ),
    decreases replies.len(), 1nat, entries.len(),
{
    let run = walk_entries::<Linker>(links, entries, replies);
    let first = walk_entry::<Linker>(links, entries[0], replies);
    let others = walk_entries::<Linker>(links, entries.drop_first(), first.rest(replies));
    let file = placed(at, replies[k].entries()->Ok_0)[j].path;
    assert(first.out == Some(Done::Ok(())));
    lemma_entry_length(links, entries[0], replies);
    assert(run.asked =~= first.asked + others.asked);
    if k < first.asked.len() {
        assert(first.asked[k] == run.asked[k]);
        assert(entries[0].kind == EntryKind::Directory);
        lemma_walk_links(links, entries[0].path, replies, k, at, j);
        assert(run.asked =~= Seq::<RequestView>::empty() + first.asked + others.asked);
        assert(replies.skip(0) =~= replies);
        lemma_linked_lift(Seq::empty(), first.asked, others.asked, replies, links, file);
    } else {
        let from = k - first.asked.len();
        assert(others.asked[from] == run.asked[k]);
        assert(first.rest(replies)[from] == replies[k]);
        lemma_entries_links(links, entries.drop_first(), first.rest(replies), from, at, j);
        assert(run.asked =~= first.asked + others.asked + Seq::<RequestView>::empty());
        lemma_linked_lift(first.asked, others.asked, Seq::empty(), replies, links, file);
    }
}

/// After `symlink_out_scope` has succeeded for a subtree, every file that
/// the host has listed below the subtree has its link: for each file in
/// the listing of a directory `at`, the link to the file of that name in
/// `at` was asked for at the file's place, and the host answered that it
/// was made or stood already.
pub proof fn projection_links_every_file(
    id: Seq<char>,
    child: (Seq<char>, Seq<char>),
    replies: Seq<ReplyView>,
    k: int,
    at: Seq<char>,
    j: int,
)
    requires
        project_one(id, child, replies).out == Some(Done::Ok(())),
        0 <= k < project_one(id, child, replies).asked.len(),
        project_one(id, child, replies).asked[k] == RequestView::ReadDir(at),
        k < replies.len(),
        replies[k].entries() is Ok,
        0 <= j < replies[k].entries()->Ok_0.len(),
        replies[k].entries()->Ok_0[j].kind == EntryKind::File,
    ensures
        linked(
            project_one(id, child, replies).asked,
            replies,
            links_of(id, child),
            placed(at, replies[k].entries()->Ok_0)[j].path,
        ),
{
    let probe = ask(RequestView::Exists(child.0), replies);
    let run = project_one(id, child, replies);
    let links = links_of(id, child);
    let file = placed(at, replies[k].entries()->Ok_0)[j].path;
    lemma_subtree_length(id, child, replies);
    assert(run.asked[0] == RequestView::Exists(child.0));
    let inner = walk::<Linker>(links, child.0, replies.skip(1));
    assert(run.asked =~= probe.asked + inner.asked + Seq::<RequestView>::empty());
    assert(inner.asked[k - 1] == run.asked[k]);
    assert(replies.skip(1)[k - 1] == replies[k]);
    lemma_walk_links(links, child.0, replies.skip(1), k - 1, at, j);
    lemma_linked_lift(probe.asked, inner.asked, Seq::empty(), replies, links, file);
}

/// Whether the run that asked `asked` and was answered `replies` ended
/// with a link, or the directory for a link, that the host refused to make,
/// for another reason than that it is there already, and `error` is the
/// link error with the host's message.
pub open spec fn refused_link(
    asked: Seq<RequestView>,
    replies: Seq<ReplyView>,
    error: FileStructureErrorView,
) -> bool {
    &&& 0 < asked.len() <= replies.len()
    &&& asked.last() is Symlink || asked.last() is CreateDirAll
    &&& match replies[asked.len() - 1].done() {
        Ok(()) => false,
        Err(failure) => failure.kind != FailureKind::AlreadyExists && error
            == FileStructureErrorView::SymLinkError(failure.message),
    }
}

/// A refused link at the end of a part of a run is one at the end of the
/// run.
proof fn lemma_refused_lift(
    before: Seq<RequestView>,
    part: Seq<RequestView>,
    replies: Seq<ReplyView>,
    error: FileStructureErrorView,
)
    requires
        before.len() <= replies.len(),
        refused_link(part, replies.skip(before.len() as int), error),
    ensures
        refused_link(before + part, replies, error),
{
    let rest = replies.skip(before.len() as int);
    assert((before + part).last() == part.last());
    assert(replies[(before + part).len() - 1] == rest[part.len() - 1]);
}

/// A projection below a directory fails only at a refused link.
proof fn lemma_walk_refused(links: Links, dir: Seq<char>, replies: Seq<ReplyView>)
    requires
        walk::<Linker>(links, dir, replies).out is Some,
        walk::<Linker>(links, dir, replies).out->0 is Err,
    ensures
        refused_link(
            walk::<Linker>(links, dir, replies).asked,
            replies,
            walk::<Linker>(links, dir, replies).out->0->Err_0,
        ),
    decreases replies.len(), 0nat, 0nat,
{
    let list = ask(RequestView::ReadDir(dir), replies);
    if let Ok(entries) = replies[0].entries() {
        let entries = placed(dir, entries);
        let inner = walk_entries::<Linker>(links, entries, replies.skip(1));
        lemma_entries_refused(links, entries, replies.skip(1));
        lemma_refused_lift(list.asked, inner.asked, replies, inner.out->0->Err_0);
    }
}

/// A projection over the entries of a directory fails only at a refused
/// link.
proof fn lemma_entries_refused(links: Links, entries: Seq<DirEntryView>, replies: Seq<ReplyView>)
    requires
        walk_entries::<Linker>(links, entries, replies).out is Some,
        walk_entries::<Linker>(links, entries, replies).out->0 is Err,
    ensures
        refused_link(
            walk_entries::<Linker>(links, entries, replies).asked,
            replies,
            walk_entries::<Linker>(links, entries, replies).out->0->Err_0,
        ),
    decreases replies.len(), 1nat, entries.len(),
{
    if entries.len() > 0 {
        let first = walk_entry::<Linker>(links, entries[0], replies);
        if first.out == Some(Done::Ok(())) {
            let others = walk_entries::<Linker>(links, entries.drop_first(), first.rest(replies));
            lemma_entry_length(links, entries[0], replies);
            lemma_entries_refused(links, entries.drop_first(), first.rest(replies));
            lemma_refused_lift(first.asked, others.asked, replies, others.out->0->Err_0);
        } else {
            lemma_entry_refused(links, entries[0], replies);
        }
    }
}

/// The projection of an entry fails only at a refused link.
proof fn lemma_entry_refused(links: Links, entry: DirEntryView, replies: Seq<ReplyView>)
    requires
        walk_entry::<Linker>(links, entry, replies).out is Some,
        walk_entry::<Linker>(links, entry, replies).out->0 is Err,
    ensures
        refused_link(
            walk_entry::<Linker>(links, entry, replies).asked,
            replies,
            walk_entry::<Linker>(links, entry, replies).out->0->Err_0,
        ),
    decreases replies.len(), 0nat, 1nat,
{
    if entry.kind == EntryKind::Directory {
        lemma_walk_refused(links, entry.path, replies);
    }
}

/// `symlink_out_scope` fails only where the host refuses a link or the
/// directory for it, for another reason than that it is there already. What
/// was refused is the last thing it asks for, and its error is
/// `SymLinkError` with the host's message.
pub proof fn projection_fails_at_a_link(
    id: Seq<char>,
    pairs: Seq<(Seq<char>, Seq<char>)>,
    replies: Seq<ReplyView>,
)
    requires
        project_each(id, pairs, replies).out is Some,
        project_each(id, pairs, replies).out->0 is Err,
    ensures
        refused_link(
            project_each(id, pairs, replies).asked,
            replies,
            project_each(id, pairs, replies).out->0->Err_0,
        ),
    decreases pairs.len(),
{
    if pairs.len() > 0 {
        let first = project_one(id, pairs[0], replies);
        let probe = ask(RequestView::Exists(pairs[0].0), replies);
        let inner = walk::<Linker>(links_of(id, pairs[0]), pairs[0].0, replies.skip(1));
        if first.out == Some(Done::Ok(())) {
            let others = project_each(id, pairs.drop_first(), first.rest(replies));
            lemma_subtree_length(id, pairs[0], replies);
            projection_fails_at_a_link(id, pairs.drop_first(), first.rest(replies));
            lemma_refused_lift(first.asked, others.asked, replies, others.out->0->Err_0);
        } else {
            lemma_walk_refused(links_of(id, pairs[0]), pairs[0].0, replies.skip(1));
            lemma_refused_lift(probe.asked, inner.asked, replies, inner.out->0->Err_0);
        }
    }
}

/// Conversely, a link that the host refuses ends the projection: where the
/// host answers a request for a link with a failure other than that the
/// link is there already, that request is the last, and the result is the
/// link error.
pub proof fn refused_link_ends_projection(
    id: Seq<char>,
    pairs: Seq<(Seq<char>, Seq<char>)>,
    replies: Seq<ReplyView>,
    k: int,
)
    requires
        0 <= k < project_each(id, pairs, replies).asked.len(),
        k < replies.len(),
        project_each(id, pairs, replies).asked[k] is Symlink,
        !made_or_there(replies[k]),
    ensures
        k == project_each(id, pairs, replies).asked.len() - 1,
        project_each(id, pairs, replies).out matches Some(Err(e)) && refused_link(
            project_each(id, pairs, replies).asked,
            replies,
            e,
        ),
    decreases pairs.len(),
{
    let run = project_each(id, pairs, replies);
    let first = project_one(id, pairs[0], replies);
    let probe = ask(RequestView::Exists(pairs[0].0), replies);
    let links = links_of(id, pairs[0]);
    if first.out == Some(Done::Ok(())) {
        let others = project_each(id, pairs.drop_first(), first.rest(replies));
        lemma_subtree_length(id, pairs[0], replies);
        assert(run.asked =~= first.asked + others.asked);
        if k < first.asked.len() {
            let inner = walk::<Linker>(links, pairs[0].0, replies.skip(1));
            assert(first.asked =~= probe.asked + inner.asked);
            assert(inner.asked[k - 1] == run.asked[k]);
            assert(replies.skip(1)[k - 1] == replies[k]);
            lemma_walk_ends(links, pairs[0].0, replies.skip(1), k - 1);
        } else {
            let j = k - first.asked.len();
            assert(others.asked[j] == run.asked[k]);
            assert(first.rest(replies)[j] == replies[k]);
            refused_link_ends_projection(id, pairs.drop_first(), first.rest(replies), j);
            lemma_refused_lift(first.asked, others.asked, replies, others.out->0->Err_0);
        }
    } else {
        assert(run == first);
        assert(probe.out is Some && probe.out->0.flag());
        let inner = walk::<Linker>(links, pairs[0].0, replies.skip(1));
        assert(first.asked =~= probe.asked + inner.asked);
        assert(inner.asked[k - 1] == run.asked[k]);
        assert(replies.skip(1)[k - 1] == replies[k]);
        lemma_walk_ends(links, pairs[0].0, replies.skip(1), k - 1);
        lemma_refused_lift(probe.asked, inner.asked, replies, inner.out->0->Err_0);
    }
}

/// A refused link ends the walk below a directory.
proof fn lemma_walk_ends(links: Links, dir: Seq<char>, replies: Seq<ReplyView>, k: int)
    requires
        0 <= k < walk::<Linker>(links, dir, replies).asked.len(),
        k < replies.len(),
        walk::<Linker>(links, dir, replies).asked[k] is Symlink,
        !made_or_there(replies[k]),
    ensures
        k == walk::<Linker>(links, dir, replies).asked.len() - 1,
        walk::<Linker>(links, dir, replies).out is Some,
        walk::<Linker>(links, dir, replies).out->0 is Err,
        refused_link(
            walk::<Linker>(links, dir, replies).asked,
            replies,
            walk::<Linker>(links, dir, replies).out->0->Err_0,
        ),
    decreases replies.len(), 0nat, 0nat,
{
    let list = ask(RequestView::ReadDir(dir), replies);
    let run = walk::<Linker>(links, dir, replies);
    assert(run.asked[0] == RequestView::ReadDir(dir));
    let entries = placed(dir, replies[0].entries()->Ok_0);
    let inner = walk_entries::<Linker>(links, entries, replies.skip(1));
    assert(run.asked =~= list.asked + inner.asked);
    assert(inner.asked[k - 1] == run.asked[k]);
    assert(replies.skip(1)[k - 1] == replies[k]);
    lemma_entries_end(links, entries, replies.skip(1), k - 1);
    lemma_refused_lift(list.asked, inner.asked, replies, inner.out->0->Err_0);
}

/// A refused link ends the walk over the entries of a directory.
proof fn lemma_entries_end(
    links: Links,
    entries: Seq<DirEntryView>,
    replies: Seq<ReplyView>,
    k: int,
)
    requires
        0 <= k < walk_entries::<Linker>(links, entries, replies).asked.len(),
        k < replies.len(),
        walk_entries::<Linker>(links, entries, replies).asked[k] is Symlink,
        !made_or_there(replies[k]),
    ensures
        k == walk_entries::<Linker>(links, entries, replies).asked.len() - 1,
        walk_entries::<Linker>(links, entries, replies).out is Some,
        walk_entries::<Linker>(links, entries, replies).out->0 is Err,
        refused_link(
            walk_entries::<Linker>(links, entries, replies).asked,
            replies,
            walk_entries::<Linker>(links, entries, replies).out->0->Err_0,
        ),
    decreases replies.len(), 1nat, entries.len(),
{
    let run = walk_entries::<Linker>(links, entries, replies);
    let first = walk_entry::<Linker>(links, entries[0], replies);
    if first.out == Some(Done::Ok(())) {
        let others = walk_entries::<Linker>(links, entries.drop_first(), first.rest(replies));
        lemma_entry_length(links, entries[0], replies);
        assert(run.asked =~= first.asked + others.asked);
        if k < first.asked.len() {
            lemma_entry_ends(links, entries[0], replies, k);
        } else {
            let j = k - first.asked.len();
            assert(others.asked[j] == run.asked[k]);
            assert(first.rest(replies)[j] == replies[k]);
            lemma_entries_end(links, entries.drop_first(), first.rest(replies), j);
            lemma_refused_lift(first.asked, others.asked, replies, others.out->0->Err_0);
        }
    } else {
        lemma_entry_ends(links, entries[0], replies, k);
    }
}

/// A refused link ends what the walk does with an entry.
proof fn lemma_entry_ends(links: Links, entry: DirEntryView, replies: Seq<ReplyView>, k: int)
    requires
        0 <= k < walk_entry::<Linker>(links, entry, replies).asked.len(),
        k < replies.len(),
        walk_entry::<Linker>(links, entry, replies).asked[k] is Symlink,
        !made_or_there(replies[k]),
    ensures
        k == walk_entry::<Linker>(links, entry, replies).asked.len() - 1,
        walk_entry::<Linker>(links, entry, replies).out is Some,
        walk_entry::<Linker>(links, entry, replies).out->0 is Err,
        refused_link(
            walk_entry::<Linker>(links, entry, replies).asked,
            replies,
            walk_entry::<Linker>(links, entry, replies).out->0->Err_0,
        ),
    decreases replies.len(), 0nat, 1nat,
{
    if entry.kind == EntryKind::Directory {
        lemma_walk_ends(links, entry.path, replies, k);
    }
}

/// A withdrawal below a directory never fails.
proof fn lemma_unlink_walk(links: Links, dir: Seq<char>, replies: Seq<ReplyView>)
    ensures
        walk::<Unlinker>(links, dir, replies).out is Some ==> walk::<Unlinker>(
            links,
            dir,
            replies,
        ).out == Some(Done::Ok(())),
    decreases replies.len(), 0nat, 0nat,
{
    if replies.len() > 0 {
        if let Ok(entries) = replies[0].entries() {
            let entries = placed(dir, entries);
            lemma_unlink_entries(links, entries, replies.skip(1));
        }
    }
}

/// A withdrawal over the entries of a directory never fails.
proof fn lemma_unlink_entries(links: Links, entries: Seq<DirEntryView>, replies: Seq<ReplyView>)
    ensures
        walk_entries::<Unlinker>(links, entries, replies).out is Some ==> walk_entries::<Unlinker>(
            links,
            entries,
            replies,
        ).out == Some(Done::Ok(())),
    decreases replies.len(), 1nat, entries.len(),
{
    if entries.len() > 0 {
        let first = walk_entry::<Unlinker>(links, entries[0], replies);
        lemma_unlink_entry(links, entries[0], replies);
        if first.out == Some(Done::Ok(())) {
            lemma_unlink_entries(links, entries.drop_first(), first.rest(replies));
        }
    }
}

/// The withdrawal of an entry never fails.
proof fn lemma_unlink_entry(links: Links, entry: DirEntryView, replies: Seq<ReplyView>)
    ensures
        walk_entry::<Unlinker>(links, entry, replies).out is Some ==> walk_entry::<Unlinker>(
            links,
            entry,
            replies,
        ).out == Some(Done::Ok(())),
    decreases replies.len(), 0nat, 1nat,
{
    if entry.kind == EntryKind::Directory {
        lemma_unlink_walk(links, entry.path, replies);
    }
}

/// `remove_symlinks` never fails: whatever the host answers, it goes on to
/// the end. A link that is not there, or cannot be removed, is no error.
pub proof fn withdrawal_never_fails(
    id: Seq<char>,
    pairs: Seq<(Seq<char>, Seq<char>)>,
    replies: Seq<ReplyView>,
)
    ensures
        withdraw_each(id, pairs, replies).out is Some ==> withdraw_each(id, pairs, replies).out
            == Some(Done::Ok(())),
    decreases pairs.len(),
{
    if pairs.len() > 0 {
        let first = withdraw_one(id, pairs[0], replies);
        if replies.len() > 0 {
            lemma_unlink_walk(links_of(id, pairs[0]), pairs[0].0, replies.skip(1));
        }
        if first.out == Some(Done::Ok(())) {
            withdrawal_never_fails(id, pairs.drop_first(), first.rest(replies));
        }
    }
}

} // verus!
