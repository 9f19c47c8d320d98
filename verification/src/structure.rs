//! The directories that a package owns under `/var/db/installed`, and the
//! links that publish its files under the system's directories: the file
//! `files/<sub>/<rest>` of the package `<id>` has its link at
//! `/<sub>/<id>/<rest>`.

use crate::error::{FileStructureError, FileStructureErrorView};
use crate::session::{
    ask, continues, copy_texts, DirEntry, DirEntryView, EntryKind, Failure, FailureKind, FailureView,
    lemma_after_after, lemma_after_empty, lemma_ask_continues, lemma_continues_after,
    lemma_follows_chain, lemma_follows_unread, lemma_for_each, lemma_next_item, lemma_prefix_after,
    lemma_rest_more, lemma_stopped_continues, outcome, ReplyView, Request, RequestView, Run,
    Session,
};
use crate::text::{
    above, concat, dir_of, file_name, join, joined, last_component, lemma_joined_plain,
    lemma_views_push, starts_with, views,
};
use vstd::prelude::*;
use vstd::string::*;

verus! {

/// The five directories below `files/` whose files are published.
pub open spec fn subtrees() -> Seq<Seq<char>> {
    seq!["usr/bin"@, "usr/lib"@, "usr/lib64"@, "usr/sbin"@, "usr/linuxrc"@]
}

/// The directory that holds everything recorded of the package `id`.
pub open spec fn installed_dir(id: Seq<char>) -> Seq<char> {
    "/var/db/installed/"@ + id
}

/// The directory into which the package `id` is built.
pub open spec fn files_dir(id: Seq<char>) -> Seq<char> {
    installed_dir(id) + "/files"@
}

/// The directories of the package `id`: the five subtrees, the directory
/// that holds them, and the directory above that one.
pub open spec fn path_bufs(id: Seq<char>) -> Seq<Seq<char>> {
    seq![
        files_dir(id) + "/usr/bin"@,
        files_dir(id) + "/usr/lib"@,
        files_dir(id) + "/usr/lib64"@,
        files_dir(id) + "/usr/sbin"@,
        files_dir(id) + "/usr/linuxrc"@,
        files_dir(id),
        installed_dir(id),
    ]
}

/// The five subtrees of the package `id`, each with its path.
pub open spec fn children(id: Seq<char>) -> Seq<(Seq<char>, Seq<char>)> {
    seq![
        (files_dir(id) + "/usr/bin"@, "usr/bin"@),
        (files_dir(id) + "/usr/lib"@, "usr/lib"@),
        (files_dir(id) + "/usr/lib64"@, "usr/lib64"@),
        (files_dir(id) + "/usr/sbin"@, "usr/sbin"@),
        (files_dir(id) + "/usr/linuxrc"@, "usr/linuxrc"@),
    ]
}

/// The path of each subtree of the package `id`, as the subtree's name
/// joined to the directory that holds the subtrees.
spec fn subtree_paths(id: Seq<char>) -> Seq<Seq<char>> {
    Seq::new(subtrees().len(), |i: int| joined(files_dir(id), subtrees()[i]))
}

/// Each subtree lies in the directory that holds the subtrees, under its
/// own name.
proof fn lemma_subtree_paths(id: Seq<char>)
    ensures
        subtree_paths(id).push(files_dir(id)).push(installed_dir(id)) == path_bufs(id),
        Seq::new(subtrees().len(), |i: int| (subtree_paths(id)[i], subtrees()[i])) == children(id),
{
    reveal_strlit("/files");
    reveal_strlit("usr/bin");
    reveal_strlit("usr/lib");
    reveal_strlit("usr/lib64");
    reveal_strlit("usr/sbin");
    reveal_strlit("usr/linuxrc");
    reveal_strlit("/usr/bin");
    reveal_strlit("/usr/lib");
    reveal_strlit("/usr/lib64");
    reveal_strlit("/usr/sbin");
    reveal_strlit("/usr/linuxrc");
    let base = files_dir(id);
    assert(base.last() == 's');
    assert forall|i: int| 0 <= i < 5 implies joined(base, #[trigger] subtrees()[i]) == base + seq![
        '/',
    ] + subtrees()[i] by {
        assert(subtrees()[i][0] == 'u');
        lemma_joined_plain(base, subtrees()[i]);
    }
    assert(base + seq!['/'] + "usr/bin"@ =~= base + "/usr/bin"@);
    assert(base + seq!['/'] + "usr/lib"@ =~= base + "/usr/lib"@);
    assert(base + seq!['/'] + "usr/lib64"@ =~= base + "/usr/lib64"@);
    assert(base + seq!['/'] + "usr/sbin"@ =~= base + "/usr/sbin"@);
    assert(base + seq!['/'] + "usr/linuxrc"@ =~= base + "/usr/linuxrc"@);
    assert(subtree_paths(id)[0] == base + "/usr/bin"@);
    assert(subtree_paths(id)[1] == base + "/usr/lib"@);
    assert(subtree_paths(id)[2] == base + "/usr/lib64"@);
    assert(subtree_paths(id)[3] == base + "/usr/sbin"@);
    assert(subtree_paths(id)[4] == base + "/usr/linuxrc"@);
    assert(subtree_paths(id).push(files_dir(id)).push(installed_dir(id)) =~= path_bufs(id));
    assert(Seq::new(subtrees().len(), |i: int| (subtree_paths(id)[i], subtrees()[i])) =~= children(
        id,
    ));
}

/// The file structure of one package. Its view is the package's id.
#[derive(Debug)]
pub struct InstallFileStructure {
    id: String,
    parent: String,
    children: Vec<String>,
}

impl View for InstallFileStructure {
    type V = Seq<char>;

    closed spec fn view(&self) -> Seq<char> {
        self.id@
    }
}

impl InstallFileStructure {
    #[verifier::type_invariant]
    spec fn well_formed(self) -> bool {
        &&& self.parent@ == files_dir(self.id@)
        &&& views(self.children@) == subtrees()
    }

    /// The file structure of the package `id`.
    pub fn new(id: &str) -> (structure: Self)
        ensures
            structure@ == id@,
    {
        let id = String::from_str(id);
        let mut parent = concat("/var/db/installed/", id.as_str());
        parent.append("/files");
        let mut children: Vec<String> = Vec::new();
        children.push(String::from_str("usr/bin"));
        children.push(String::from_str("usr/lib"));
        children.push(String::from_str("usr/lib64"));
        children.push(String::from_str("usr/sbin"));
        children.push(String::from_str("usr/linuxrc"));
        proof {
            assert(views(children@) =~= subtrees());
        }
        Self { id, parent, children }
    }

    /// The package's id.
    pub fn id(&self) -> (id: &String)
        ensures
            id@ == self@,
    {
        &self.id
    }

    /// Every directory of the structure, in the order in which they are
    /// created and deleted.
    pub fn get_path_bufs(&self) -> (bufs: Vec<String>)
        ensures
            views(bufs@) == path_bufs(self@),
    {
        proof {
            use_type_invariant(self);
        }
        let mut bufs: Vec<String> = Vec::new();
        let mut i: usize = 0;
        while i < self.children.len()
            invariant
                i <= self.children.len(),
                self.parent@ == files_dir(self.id@),
                views(self.children@) == subtrees(),
                views(bufs@) == subtree_paths(self.id@).take(i as int),
            decreases self.children.len() - i,
        {
            let path = join(self.parent.as_str(), self.children[i].as_str());
            proof {
                assert(views(self.children@)[i as int] == self.children@[i as int]@);
                lemma_views_push(bufs@, path);
                assert(views(bufs@).push(path@) =~= subtree_paths(self.id@).take(i + 1));
            }
            bufs.push(path);
            i += 1;
        }
        let parent = self.parent.clone();
        let above = concat("/var/db/installed/", self.id.as_str());
        proof {
            lemma_views_push(bufs@, parent);
            lemma_views_push(bufs@.push(parent), above);
            assert(subtree_paths(self.id@).take(i as int) =~= subtree_paths(self.id@));
            lemma_subtree_paths(self.id@);
        }
        bufs.push(parent);
        bufs.push(above);
        bufs
    }

    /// The five subtrees, each with its path.
    pub fn get_children(&self) -> (pairs: Vec<(String, String)>)
        ensures
            views(pairs@) == children(self@),
    {
        proof {
            use_type_invariant(self);
        }
        let mut pairs: Vec<(String, String)> = Vec::new();
        let mut i: usize = 0;
        while i < self.children.len()
            invariant
                i <= self.children.len(),
                self.parent@ == files_dir(self.id@),
                views(self.children@) == subtrees(),
                views(pairs@) == Seq::new(
                    i as nat,
                    |k: int| (subtree_paths(self.id@)[k], subtrees()[k]),
                ),
            decreases self.children.len() - i,
        {
            let path = join(self.parent.as_str(), self.children[i].as_str());
            let pair = (path, self.children[i].clone());
            proof {
                assert(views(self.children@)[i as int] == self.children@[i as int]@);
                lemma_views_push(pairs@, pair);
                assert(views(pairs@).push(pair@) =~= Seq::new(
                    (i + 1) as nat,
                    |k: int| (subtree_paths(self.id@)[k], subtrees()[k]),
                ));
            }
            pairs.push(pair);
            i += 1;
        }
        proof {
            lemma_subtree_paths(self.id@);
        }
        pairs
    }
}

impl Clone for InstallFileStructure {
    fn clone(&self) -> (out: Self)
        ensures
            out@ == self@,
    {
        proof {
            use_type_invariant(self);
        }
        InstallFileStructure {
            id: self.id.clone(),
            parent: self.parent.clone(),
            children: copy_texts(&self.children),
        }
    }
}

/// What a procedure on the file structure returns, seen in contracts.
pub type Done = Result<(), FileStructureErrorView>;

/// The run that asks whether `path` exists and, where the answer is `want`,
/// makes `action`.
pub open spec fn guarded(
    path: Seq<char>,
    want: bool,
    action: RequestView,
    replies: Seq<ReplyView>,
) -> Run<Result<(), FailureView>> {
    let probe = ask(RequestView::Exists(path), replies);
    match probe.out {
        None => probe.stopped(),
        Some(found) => if found.flag() != want {
            probe.giving(Ok(()))
        } else {
            let act = ask(action, probe.rest(replies)).after(probe.asked);
            match act.out {
                None => act.stopped(),
                Some(reply) => act.giving(reply.done()),
            }
        },
    }
}

/// Asks whether `path` exists and, where the answer is `want`, makes
/// `action`.
pub fn guard(path: &String, want: bool, action: Request, session: &mut Session) -> (out: Option<
    Result<(), Failure>,
>)
    requires
        old(session)@.live(),
    ensures
        final(session)@.follows(old(session)@, guarded(path@, want, action@, old(session)@.unread())),
        outcome(out) == guarded(path@, want, action@, old(session)@.unread()).out,
{
    let ghost start = session@;
    let ghost probe = ask(RequestView::Exists(path@), start.unread());
    match session.ask_flag(Request::Exists(path.clone())) {
        None => None,
        Some(found) => {
            if found != want {
                Some(Ok(()))
            } else {
                let ghost mid = session@;
                proof {
                    lemma_follows_unread(mid, start, probe);
                }
                let out = session.ask_done(action);
                proof {
                    lemma_follows_chain(session@, mid, start, probe, ask(action@, mid.unread()));
                }
                out
            }
        },
    }
}

/// The run that makes the directory `path` unless it exists. That another
/// made it meanwhile is no failure.
pub open spec fn create_one(path: Seq<char>, replies: Seq<ReplyView>) -> Run<Done> {
    let step = guarded(path, false, RequestView::CreateDirAll(path), replies);
    match step.out {
        None => step.stopped(),
        Some(Ok(())) => step.giving(Ok(())),
        Some(Err(failure)) => if failure.kind == FailureKind::AlreadyExists {
            step.giving(Ok(()))
        } else {
            step.giving(Err(FileStructureErrorView::from_failure(failure)))
        },
    }
}

/// The run that makes each of `paths` in order and stops at the first
/// failure.
pub open spec fn create_each(paths: Seq<Seq<char>>, replies: Seq<ReplyView>) -> Run<Done>
    decreases paths.len(),
{
    if paths.len() == 0 {
        Run::finished(Ok(()))
    } else {
        let first = create_one(paths[0], replies);
        if first.out == Some(Done::Ok(())) {
            create_each(paths.drop_first(), first.rest(replies)).after(first.asked)
        } else {
            first
        }
    }
}

/// A run that made directories and finished has had a reply to each of its
/// requests.
pub proof fn lemma_create_length(paths: Seq<Seq<char>>, replies: Seq<ReplyView>)
    ensures
        create_each(paths, replies).out is Some ==> create_each(paths, replies).asked.len()
            <= replies.len(),
    decreases paths.len(),
{
    if paths.len() > 0 {
        let first = create_one(paths[0], replies);
        if first.out == Some(Done::Ok(())) {
            lemma_create_length(paths.drop_first(), first.rest(replies));
        }
    }
}

/// Whether the run that asked `asked` and was answered `replies` has found
/// or made the directory `path`.
pub open spec fn secured(
    path: Seq<char>,
    asked: Seq<RequestView>,
    replies: Seq<ReplyView>,
) -> bool {
    exists|k: int|
        0 <= k < asked.len() && k < replies.len() && {
            ||| #[trigger] asked[k] == RequestView::Exists(path) && replies[k].flag()
            ||| asked[k] == RequestView::CreateDirAll(path) && made_or_there(replies[k])
        }
}

/// Whether `reply` says that a directory was made, or that it could not be
/// made because it is there.
pub open spec fn made_or_there(reply: ReplyView) -> bool {
    match reply.done() {
        Ok(()) => true,
        Err(f) => f.kind == FailureKind::AlreadyExists,
    }
}

/// After `create_all` has succeeded, each of its directories is there: the
/// host has said of each that it exists, or that it was made, or that
/// another had made it meanwhile.
pub proof fn create_all_secures(paths: Seq<Seq<char>>, replies: Seq<ReplyView>, i: int)
    requires
        create_each(paths, replies).out == Some(Done::Ok(())),
        0 <= i < paths.len(),
    ensures
        secured(paths[i], create_each(paths, replies).asked, replies),
    decreases paths.len(),
{
    let run = create_each(paths, replies);
    let first = create_one(paths[0], replies);
    let rest = first.rest(replies);
    let others = create_each(paths.drop_first(), rest);
    assert(run.asked =~= first.asked + others.asked);
    if i == 0 {
        if replies[0].flag() {
            assert(run.asked[0] == RequestView::Exists(paths[0]));
        } else {
            assert(run.asked[1] == RequestView::CreateDirAll(paths[0]));
        }
    } else {
        create_all_secures(paths.drop_first(), rest, i - 1);
        let k = choose|k: int|
            0 <= k < others.asked.len() && k < rest.len() && {
                ||| #[trigger] others.asked[k] == RequestView::Exists(paths[i]) && rest[k].flag()
                ||| others.asked[k] == RequestView::CreateDirAll(paths[i]) && made_or_there(rest[k])
            };
        let at = first.asked.len() + k;
        assert(run.asked[at] == others.asked[k]);
        assert(replies[at] == rest[k]);
    }
}

/// Where each of its directories exists, `create_all` succeeds and makes
/// nothing: it asks of each directory whether it exists, and that is all.
/// So a second `create_all` after a first leaves the directories as they
/// are.
pub proof fn create_all_again(paths: Seq<Seq<char>>, replies: Seq<ReplyView>)
    requires
        paths.len() <= replies.len(),
        forall|i: int| 0 <= i < paths.len() ==> (#[trigger] replies[i]).flag(),
    ensures
        create_each(paths, replies).out == Some(Done::Ok(())),
        create_each(paths, replies).asked == Seq::new(
            paths.len(),
            |i: int| RequestView::Exists(paths[i]),
        ),
    decreases paths.len(),
{
    if paths.len() > 0 {
        let first = create_one(paths[0], replies);
        assert(replies[0].flag());
        let rest = first.rest(replies);
        assert forall|i: int| 0 <= i < paths.drop_first().len() implies (#[trigger] rest[i]).flag() by {
            assert(rest[i] == replies[i + 1]);
        }
        create_all_again(paths.drop_first(), rest);
        assert(create_each(paths, replies).asked =~= Seq::new(
            paths.len(),
            |i: int| RequestView::Exists(paths[i]),
        ));
    } else {
        assert(create_each(paths, replies).asked =~= Seq::new(
            paths.len(),
            |i: int| RequestView::Exists(paths[i]),
        ));
    }
}

/// The run that removes the directory `path`, with all it holds, if it
/// exists.
pub open spec fn delete_one(path: Seq<char>, replies: Seq<ReplyView>) -> Run<Done> {
    let step = guarded(path, true, RequestView::RemoveDirAll(path), replies);
    match step.out {
        None => step.stopped(),
        Some(Ok(())) => step.giving(Ok(())),
        Some(Err(failure)) => step.giving(Err(FileStructureErrorView::from_failure(failure))),
    }
}

/// The run that removes each of `paths` in order and stops at the first
/// failure.
pub open spec fn delete_each(paths: Seq<Seq<char>>, replies: Seq<ReplyView>) -> Run<Done>
    decreases paths.len(),
{
    if paths.len() == 0 {
        Run::finished(Ok(()))
    } else {
        let first = delete_one(paths[0], replies);
        if first.out == Some(Done::Ok(())) {
            delete_each(paths.drop_first(), first.rest(replies)).after(first.asked)
        } else {
            first
        }
    }
}

/// The run that copies the subtree `child`, if it exists, to its place
/// below `target`.
pub open spec fn move_one(
    child: (Seq<char>, Seq<char>),
    target: Seq<char>,
    replies: Seq<ReplyView>,
) -> Run<Done> {
    let step = guarded(child.0, true, RequestView::Copy(child.0, joined(target, child.1)), replies);
    match step.out {
        None => step.stopped(),
        Some(Ok(())) => step.giving(Ok(())),
        Some(Err(failure)) => step.giving(
            Err(FileStructureErrorView::FileCopyError(failure.message)),
        ),
    }
}

/// The run that copies each of `pairs` in order and stops at the first
/// failure.
pub open spec fn move_each(
    pairs: Seq<(Seq<char>, Seq<char>)>,
    target: Seq<char>,
    replies: Seq<ReplyView>,
) -> Run<Done>
    decreases pairs.len(),
{
    if pairs.len() == 0 {
        Run::finished(Ok(()))
    } else {
        let first = move_one(pairs[0], target, replies);
        if first.out == Some(Done::Ok(())) {
            move_each(pairs.drop_first(), target, first.rest(replies)).after(first.asked)
        } else {
            first
        }
    }
}

/// Makes the directory `path` unless it exists.
fn create_directory(path: &String, session: &mut Session) -> (out: Option<
    Result<(), FileStructureError>,
>)
    requires
        old(session)@.live(),
    ensures
        final(session)@.follows(old(session)@, create_one(path@, old(session)@.unread())),
        outcome(out) == create_one(path@, old(session)@.unread()).out,
{
    match guard(path, false, Request::CreateDirAll(path.clone()), session) {
        None => None,
        Some(Ok(())) => Some(Ok(())),
        Some(Err(failure)) => match failure.kind {
            FailureKind::AlreadyExists => Some(Ok(())),
            _ => Some(Err(FileStructureError::from_failure(failure))),
        },
    }
}

/// Removes the directory `path`, with all it holds, if it exists.
fn delete_directory(path: &String, session: &mut Session) -> (out: Option<
    Result<(), FileStructureError>,
>)
    requires
        old(session)@.live(),
    ensures
        final(session)@.follows(old(session)@, delete_one(path@, old(session)@.unread())),
        outcome(out) == delete_one(path@, old(session)@.unread()).out,
{
    match guard(path, true, Request::RemoveDirAll(path.clone()), session) {
        None => None,
        Some(Ok(())) => Some(Ok(())),
        Some(Err(failure)) => Some(Err(FileStructureError::from_failure(failure))),
    }
}

/// Copies the subtree `child`, if it exists, to its place below `target`.
fn move_subtree(child: &(String, String), target: &String, session: &mut Session) -> (out: Option<
    Result<(), FileStructureError>,
>)
    requires
        old(session)@.live(),
    ensures
        final(session)@.follows(old(session)@, move_one(child@, target@, old(session)@.unread())),
        outcome(out) == move_one(child@, target@, old(session)@.unread()).out,
{
    let to = join(target.as_str(), child.1.as_str());
    match guard(&child.0, true, Request::Copy(child.0.clone(), to), session) {
        None => None,
        Some(Ok(())) => Some(Ok(())),
        Some(Err(failure)) => Some(Err(FileStructureError::FileCopyError(failure.message))),
    }
}

/// What is done with each file that a walk finds.
pub trait Visitor: View {
    /// What `visit` does for the file `path` on given replies.
    spec fn visit_run(visitor: Self::V, path: Seq<char>, replies: Seq<ReplyView>) -> Run<Done>;

    /// A visit goes on as it began: run again on more replies, it asks what
    /// it asked before, before it asks anything else.
    proof fn lemma_visit_continues(
        visitor: Self::V,
        path: Seq<char>,
        replies: Seq<ReplyView>,
        more: Seq<ReplyView>,
    )
        ensures
            continues(
                Self::visit_run(visitor, path, replies),
                Self::visit_run(visitor, path, replies + more),
                replies,
            ),
    ;

    /// Handles the file `path`.
    fn visit(&self, path: &String, session: &mut Session) -> (out: Option<
        Result<(), FileStructureError>,
    >)
        requires
            old(session)@.live(),
        ensures
            final(session)@.follows(
                old(session)@,
                Self::visit_run(self@, path@, old(session)@.unread()),
            ),
            outcome(out) == Self::visit_run(self@, path@, old(session)@.unread()).out,
    ;
}

/// The entries of the directory `dir` as the walk takes them: each under
/// its name below `dir`, whatever directory the host names for it. So an
/// entry lies below the directory in whose listing it stands, and two
/// entries of different names or directories have different paths.
pub open spec fn placed(dir: Seq<char>, entries: Seq<DirEntryView>) -> Seq<DirEntryView> {
    Seq::new(
        entries.len(),
        |i: int|
            DirEntryView {
                path: joined(dir, last_component(entries[i].path)),
                kind: entries[i].kind,
            },
    )
}

/// The entries of the directory `dir`, each under its name below `dir`.
pub fn place_entries(dir: &String, entries: &Vec<DirEntry>) -> (out: Vec<DirEntry>)
    ensures
        views(out@) == placed(dir@, views(entries@)),
{
    let mut out: Vec<DirEntry> = Vec::new();
    let mut i: usize = 0;
    while i < entries.len()
        invariant
            i <= entries.len(),
            views(out@) == placed(dir@, views(entries@)).take(i as int),
        decreases entries.len() - i,
    {
        let name = file_name(entries[i].path.as_str());
        let entry = DirEntry { path: join(dir.as_str(), name.as_str()), kind: entries[i].kind };
        proof {
            lemma_views_push(out@, entry);
            assert(views(out@).push(entry@) =~= placed(dir@, views(entries@)).take(i + 1));
        }
        out.push(entry);
        i += 1;
    }
    proof {
        assert(placed(dir@, views(entries@)).take(i as int) =~= placed(dir@, views(entries@)));
    }
    out
}

/// The walk below `dir`: its entries are listed, and each is handled under
/// its name below `dir`, in the order of the listing, before the next one
/// is looked at. A directory that cannot be listed holds nothing.
pub open spec fn walk<V: Visitor>(visitor: V::V, dir: Seq<char>, replies: Seq<ReplyView>) -> Run<
    Done,
>
    decreases replies.len(), 0nat, 0nat,
{
    let list = ask(RequestView::ReadDir(dir), replies);
    match list.out {
        None => list.stopped(),
        Some(reply) => match reply.entries() {
            Err(_) => list.giving(Ok(())),
            Ok(entries) => walk_entries::<V>(
                visitor,
                placed(dir, entries),
                list.rest(replies),
            ).after(list.asked),
        },
    }
}

/// The walk over `entries`, in order: a file is visited, a directory is
/// walked, anything else is passed over. The first failure ends the walk.
pub open spec fn walk_entries<V: Visitor>(
    visitor: V::V,
    entries: Seq<DirEntryView>,
    replies: Seq<ReplyView>,
) -> Run<Done>
    decreases replies.len(), 1nat, entries.len(),
{
    if entries.len() == 0 {
        Run::finished(Ok(()))
    } else {
        let first = walk_entry::<V>(visitor, entries[0], replies);
        if first.out == Some(Done::Ok(())) {
            walk_entries::<V>(visitor, entries.drop_first(), first.rest(replies)).after(
                first.asked,
            )
        } else {
            first
        }
    }
}

/// What the walk does with one entry.
pub open spec fn walk_entry<V: Visitor>(
    visitor: V::V,
    entry: DirEntryView,
    replies: Seq<ReplyView>,
) -> Run<Done>
    decreases replies.len(), 0nat, 1nat,
{
    match entry.kind {
        EntryKind::File => V::visit_run(visitor, entry.path, replies),
        EntryKind::Directory => walk::<V>(visitor, entry.path, replies),
        EntryKind::Other => Run::finished(Ok(())),
    }
}

/// Visits every file below `dir`, depth first: a directory's entries are
/// handled in the order in which the host lists them, each under its name
/// below the directory, and a directory among them is walked before the
/// entry after it. Stops at the first file that
/// the visitor fails on; what was done before stays done.
pub fn do_recursive<V: Visitor>(dir: &String, visitor: &V, session: &mut Session) -> (out: Option<
    Result<(), FileStructureError>,
>)
    requires
        old(session)@.live(),
    ensures
        final(session)@.follows(old(session)@, walk::<V>(visitor@, dir@, old(session)@.unread())),
        outcome(out) == walk::<V>(visitor@, dir@, old(session)@.unread()).out,
    decreases old(session)@.unread().len(),
{
    let ghost start = session@;
    let ghost list = ask(RequestView::ReadDir(dir@), start.unread());
    let listed = match session.ask_entries(Request::ReadDir(dir.clone())) {
        None => {
            return None;
        },
        Some(Err(_)) => {
            return Some(Ok(()));
        },
        Some(Ok(entries)) => entries,
    };
    let entries = place_entries(dir, &listed);
    let ghost mut done: Seq<RequestView> = list.asked;
    let mut i: usize = 0;
    proof {
        lemma_follows_unread(session@, start, list);
        assert(views(entries@).skip(0) =~= views(entries@));
    }
    while i < entries.len()
        invariant
            i <= entries.len(),
            start == old(session)@,
            start.live(),
            session@.replies == start.replies,
            session@.asked == start.asked + done,
            session@.live(),
            session@.unread().len() < start.unread().len(),
            walk::<V>(visitor@, dir@, start.unread()) == walk_entries::<V>(
                visitor@,
                views(entries@).skip(i as int),
                session@.unread(),
            ).after(done),
        decreases entries.len() - i,
    {
        let ghost mid = session@;
        let ghost rest = views(entries@).skip(i as int);
        let ghost first = walk_entry::<V>(visitor@, entries[i as int]@, mid.unread());
        proof {
            assert(rest[0] == entries[i as int]@);
            assert(rest.drop_first() =~= views(entries@).skip(i + 1));
        }
        let step = match entries[i].kind {
            EntryKind::File => visitor.visit(&entries[i].path, session),
            EntryKind::Directory => do_recursive(&entries[i].path, visitor, session),
            EntryKind::Other => {
                proof {
                    assert(mid.asked + Seq::<RequestView>::empty() =~= mid.asked);
                }
                Some(Ok(()))
            },
        };
        proof {
            assert(session@.asked =~= start.asked + (done + first.asked));
            lemma_after_after(first, Seq::empty(), done);
            lemma_after_empty(first);
        }
        match step {
            None => {
                return None;
            },
            Some(Err(e)) => {
                return Some(Err(e));
            },
            Some(Ok(())) => {},
        }
        proof {
            lemma_follows_unread(session@, mid, first);
            lemma_after_after(
                walk_entries::<V>(visitor@, views(entries@).skip(i + 1), session@.unread()),
                first.asked,
                done,
            );
            done = done + first.asked;
        }
        i += 1;
    }
    proof {
        assert(views(entries@).skip(i as int).len() == 0);
        assert(done + Seq::<RequestView>::empty() =~= done);
    }
    Some(Ok(()))
}

/// The directory that holds the links of the package `id` for the subtree
/// `sub`: `/<sub>/<id>`.
pub open spec fn link_dir(sub: Seq<char>, id: Seq<char>) -> Seq<char> {
    joined("/"@, joined(sub, id))
}

/// Where the links of one subtree stand: the subtree itself, and the
/// directory that holds its links.
pub struct Links {
    /// The path of the subtree in the sandbox.
    pub root: Seq<char>,
    /// The directory of the links, `/<sub>/<id>`.
    pub dir: Seq<char>,
}

/// Where the links of the subtree `child` of the package `id` stand.
pub open spec fn links_of(id: Seq<char>, child: (Seq<char>, Seq<char>)) -> Links {
    Links { root: child.0, dir: link_dir(child.1, id) }
}

/// Where the link to `file` stands: below the directory of the links as
/// `file` lies below the subtree. A walk of the subtree meets no file
/// outside of it; such a file would have its link in the directory of the
/// links, under its own name.
pub open spec fn link_path(links: Links, file: Seq<char>) -> Seq<char> {
    if links.root.is_prefix_of(file) {
        links.dir + file.skip(links.root.len() as int)
    } else {
        joined(links.dir, last_component(file))
    }
}

/// No two files of a subtree have their link at the same place.
pub proof fn links_do_not_meet(links: Links, one: Seq<char>, other: Seq<char>)
    requires
        links.root.is_prefix_of(one),
        links.root.is_prefix_of(other),
        link_path(links, one) == link_path(links, other),
    ensures
        one == other,
{
    let n = links.root.len() as int;
    let a = one.skip(n);
    let b = other.skip(n);
    assert(a =~= (links.dir + a).skip(links.dir.len() as int));
    assert(b =~= (links.dir + b).skip(links.dir.len() as int));
    assert(one =~= links.root + a);
    assert(other =~= links.root + b);
}

/// Where the links of a package lie: for the subtree `sub` of the package
/// `id`, in the directory of the package's id below `/<sub>`, each link
/// there as its file lies in the subtree.
pub proof fn layout_of_links(i: int, id: Seq<char>, rest: Seq<char>)
    requires
        0 <= i < subtrees().len(),
        id.len() > 0,
        !id.contains('/'),
    ensures
        link_dir(subtrees()[i], id) == seq!['/'] + subtrees()[i] + seq!['/'] + id,
        link_path(links_of(id, children(id)[i]), children(id)[i].0 + rest) == link_dir(
            subtrees()[i],
            id,
        ) + rest,
{
    reveal_strlit("/");
    reveal_strlit("usr/bin");
    reveal_strlit("usr/lib");
    reveal_strlit("usr/lib64");
    reveal_strlit("usr/sbin");
    reveal_strlit("usr/linuxrc");
    let sub = subtrees()[i];
    assert(sub[0] == 'u');
    assert(sub.len() >= 7);
    assert(sub.last() != '/');
    assert(id.contains(id[0]));
    lemma_joined_plain(sub, id);
    let below = sub + seq!['/'] + id;
    assert(below[0] == 'u');
    assert("/"@ =~= seq!['/']);
    assert(joined("/"@, below) =~= seq!['/'] + sub + seq!['/'] + id);
    let child = children(id)[i];
    assert(child.1 == sub);
    let file = child.0 + rest;
    assert(child.0.is_prefix_of(file)) by {
        assert(file.subrange(0, child.0.len() as int) =~= child.0);
    }
    assert(file.skip(child.0.len() as int) =~= rest);
}

/// The run that links `file`: the directory that is to hold the link is
/// made, with all above it, and the link is made. A directory or a link
/// that is there already counts as made; any other failure is a link error
/// with the host's message, the directory's too.
pub open spec fn link_one(links: Links, file: Seq<char>, replies: Seq<ReplyView>) -> Run<Done> {
    let place = link_path(links, file);
    let made = ask(RequestView::CreateDirAll(above(place)), replies);
    match made.out {
        None => made.stopped(),
        Some(reply) => match reply.done() {
            Err(failure) if failure.kind != FailureKind::AlreadyExists => made.giving(
                Err(FileStructureErrorView::SymLinkError(failure.message)),
            ),
            _ => {
                let step = ask(RequestView::Symlink(file, place), made.rest(replies)).after(
                    made.asked,
                );
                match step.out {
                    None => step.stopped(),
                    Some(reply) => match reply.done() {
                        Ok(()) => step.giving(Ok(())),
                        Err(failure) => if failure.kind == FailureKind::AlreadyExists {
                            step.giving(Ok(()))
                        } else {
                            step.giving(Err(FileStructureErrorView::SymLinkError(failure.message)))
                        },
                    },
                }
            },
        },
    }
}

/// The run that removes the link to `file`. Whether the link was there or
/// could be removed is not asked.
pub open spec fn unlink_one(links: Links, file: Seq<char>, replies: Seq<ReplyView>) -> Run<Done> {
    let step = ask(RequestView::RemoveFile(link_path(links, file)), replies);
    match step.out {
        None => step.stopped(),
        Some(_) => step.giving(Ok(())),
    }
}

/// Asks for a symbolic link at `target` that points to `path`.
pub fn symlink(path: &String, target: &String, session: &mut Session) -> (out: Option<
    Result<(), Failure>,
>)
    requires
        old(session)@.live(),
    ensures
        final(session)@.follows(
            old(session)@,
            ask(RequestView::Symlink(path@, target@), old(session)@.unread()),
        ),
        outcome(out) == match ask(RequestView::Symlink(path@, target@), old(session)@.unread()).out {
            Some(reply) => Some(reply.done()),
            None => None,
        },
{
    session.ask_done(Request::Symlink(path.clone(), target.clone()))
}

/// The place of the link to `file`, for the subtree `root` and the
/// directory `dir` of its links.
pub fn link_target(root: &String, dir: &String, file: &String) -> (out: String)
    ensures
        out@ == link_path(Links { root: root@, dir: dir@ }, file@),
{
    if starts_with(file.as_str(), root.as_str()) {
        let n = file.as_str().unicode_len();
        let k = root.as_str().unicode_len();
        concat(dir.as_str(), file.as_str().substring_char(k, n))
    } else {
        let name = file_name(file.as_str());
        join(dir.as_str(), name.as_str())
    }
}

/// The visitor that publishes files: each file of the subtree `root` gets
/// a link below `dir`.
pub struct Linker {
    pub root: String,
    pub dir: String,
}

/// The visitor that withdraws files: the link below `dir` of each file of
/// the subtree `root` is removed.
pub struct Unlinker {
    pub root: String,
    pub dir: String,
}

impl View for Linker {
    type V = Links;

    open spec fn view(&self) -> Links {
        Links { root: self.root@, dir: self.dir@ }
    }
}

impl View for Unlinker {
    type V = Links;

    open spec fn view(&self) -> Links {
        Links { root: self.root@, dir: self.dir@ }
    }
}

impl Visitor for Linker {
    open spec fn visit_run(visitor: Links, path: Seq<char>, replies: Seq<ReplyView>) -> Run<Done> {
        link_one(visitor, path, replies)
    }

    proof fn lemma_visit_continues(
        visitor: Links,
        path: Seq<char>,
        replies: Seq<ReplyView>,
        more: Seq<ReplyView>,
    ) {
        let place = link_path(visitor, path);
        let make = RequestView::CreateDirAll(above(place));
        let link = RequestView::Symlink(path, place);
        let made = ask(make, replies);
        let longer = ask(make, replies + more);
        lemma_ask_continues(make, replies, more);
        if made.out is None {
            if longer.out is Some {
                lemma_prefix_after(ask(link, longer.rest(replies + more)), longer.asked);
            }
            lemma_stopped_continues(made, longer, link_one(visitor, path, replies + more), replies);
        } else {
            lemma_rest_more(made, replies, more);
            lemma_ask_continues(link, made.rest(replies), more);
            lemma_continues_after(
                ask(link, made.rest(replies)),
                ask(link, made.rest(replies) + more),
                made.asked,
                replies,
            );
        }
    }

    fn visit(&self, path: &String, session: &mut Session) -> (out: Option<
        Result<(), FileStructureError>,
    >) {
        let ghost start = session@;
        let target = link_target(&self.root, &self.dir, path);
        let holder = dir_of(target.as_str());
        let ghost made = ask(RequestView::CreateDirAll(holder@), start.unread());
        match session.ask_done(Request::CreateDirAll(holder)) {
            None => {
                return None;
            },
            Some(Ok(())) => {},
            Some(Err(failure)) => match failure.kind {
                FailureKind::AlreadyExists => {},
                _ => {
                    return Some(Err(FileStructureError::SymLinkError(failure.message)));
                },
            },
        }
        let ghost mid = session@;
        proof {
            lemma_follows_unread(mid, start, made);
        }
        let linked = symlink(path, &target, session);
        proof {
            lemma_follows_chain(
                session@,
                mid,
                start,
                made,
                ask(RequestView::Symlink(path@, target@), mid.unread()),
            );
        }
        match linked {
            None => None,
            Some(Ok(())) => Some(Ok(())),
            Some(Err(failure)) => match failure.kind {
                FailureKind::AlreadyExists => Some(Ok(())),
                _ => Some(Err(FileStructureError::SymLinkError(failure.message))),
            },
        }
    }
}

impl Visitor for Unlinker {
    open spec fn visit_run(visitor: Links, path: Seq<char>, replies: Seq<ReplyView>) -> Run<Done> {
        unlink_one(visitor, path, replies)
    }

    proof fn lemma_visit_continues(
        visitor: Links,
        path: Seq<char>,
        replies: Seq<ReplyView>,
        more: Seq<ReplyView>,
    ) {
        lemma_ask_continues(RequestView::RemoveFile(link_path(visitor, path)), replies, more);
    }

    fn visit(&self, path: &String, session: &mut Session) -> (out: Option<
        Result<(), FileStructureError>,
    >) {
        let target = link_target(&self.root, &self.dir, path);
        match session.ask_done(Request::RemoveFile(target)) {
            None => None,
            Some(_) => Some(Ok(())),
        }
    }
}

/// The run that publishes the subtree `child` of the package `id`, if the
/// subtree exists: every file below it gets its link.
pub open spec fn project_one(
    id: Seq<char>,
    child: (Seq<char>, Seq<char>),
    replies: Seq<ReplyView>,
) -> Run<Done> {
    let probe = ask(RequestView::Exists(child.0), replies);
    match probe.out {
        None => probe.stopped(),
        Some(found) => if found.flag() {
            walk::<Linker>(links_of(id, child), child.0, probe.rest(replies)).after(probe.asked)
        } else {
            probe.giving(Ok(()))
        },
    }
}

/// The run that publishes each of `pairs` in order and stops at the first
/// failure.
pub open spec fn project_each(
    id: Seq<char>,
    pairs: Seq<(Seq<char>, Seq<char>)>,
    replies: Seq<ReplyView>,
) -> Run<Done>
    decreases pairs.len(),
{
    if pairs.len() == 0 {
        Run::finished(Ok(()))
    } else {
        let first = project_one(id, pairs[0], replies);
        if first.out == Some(Done::Ok(())) {
            project_each(id, pairs.drop_first(), first.rest(replies)).after(first.asked)
        } else {
            first
        }
    }
}

/// The run that withdraws the subtree `child` of the package `id`, if the
/// subtree exists: the link of every file below it is removed.
pub open spec fn withdraw_one(
    id: Seq<char>,
    child: (Seq<char>, Seq<char>),
    replies: Seq<ReplyView>,
) -> Run<Done> {
    let probe = ask(RequestView::Exists(child.0), replies);
    match probe.out {
        None => probe.stopped(),
        Some(found) => if found.flag() {
            walk::<Unlinker>(links_of(id, child), child.0, probe.rest(replies)).after(
                probe.asked,
            )
        } else {
            probe.giving(Ok(()))
        },
    }
}

/// The run that withdraws each of `pairs` in order.
pub open spec fn withdraw_each(
    id: Seq<char>,
    pairs: Seq<(Seq<char>, Seq<char>)>,
    replies: Seq<ReplyView>,
) -> Run<Done>
    decreases pairs.len(),
{
    if pairs.len() == 0 {
        Run::finished(Ok(()))
    } else {
        let first = withdraw_one(id, pairs[0], replies);
        if first.out == Some(Done::Ok(())) {
            withdraw_each(id, pairs.drop_first(), first.rest(replies)).after(first.asked)
        } else {
            first
        }
    }
}

/// `create_all` fails only where the host refuses to make a directory, for
/// another reason than that the directory is there. The refused directory
/// is the last thing it asks for, and its error is the host's failure,
/// classed by its kind.
pub proof fn creation_fails_at_a_refusal(paths: Seq<Seq<char>>, replies: Seq<ReplyView>)
    requires
        create_each(paths, replies).out is Some,
        create_each(paths, replies).out->0 is Err,
    ensures
        ({
            let run = create_each(paths, replies);
            &&& 0 < run.asked.len() <= replies.len()
            &&& run.asked.last() is CreateDirAll
            &&& match replies[run.asked.len() - 1].done() {
                Ok(()) => false,
                Err(failure) => failure.kind != FailureKind::AlreadyExists && run.out->0->Err_0
                    == FileStructureErrorView::from_failure(failure),
            }
        }),
    decreases paths.len(),
{
    if paths.len() > 0 {
        let first = create_one(paths[0], replies);
        if first.out == Some(Done::Ok(())) {
            let others = create_each(paths.drop_first(), first.rest(replies));
            creation_fails_at_a_refusal(paths.drop_first(), first.rest(replies));
            let run = create_each(paths, replies);
            assert(run.asked =~= first.asked + others.asked);
            assert(run.asked.last() == others.asked.last());
            assert(replies[run.asked.len() - 1] == first.rest(replies)[others.asked.len() - 1]);
        }
    }
}

/// The directory of the links of the package `id` for the subtree `sub`.
fn link_directory(sub: &String, id: &String) -> (out: String)
    ensures
        out@ == link_dir(sub@, id@),
{
    let below = join(sub.as_str(), id.as_str());
    join("/", below.as_str())
}

/// Publishes the subtree `child` of the package `id`, if it exists.
fn project_subtree(id: &String, child: &(String, String), session: &mut Session) -> (out: Option<
    Result<(), FileStructureError>,
>)
    requires
        old(session)@.live(),
    ensures
        final(session)@.follows(old(session)@, project_one(id@, child@, old(session)@.unread())),
        outcome(out) == project_one(id@, child@, old(session)@.unread()).out,
{
    let ghost start = session@;
    let ghost probe = ask(RequestView::Exists(child.0@), start.unread());
    match session.ask_flag(Request::Exists(child.0.clone())) {
        None => None,
        Some(false) => Some(Ok(())),
        Some(true) => {
            let ghost mid = session@;
            let visitor = Linker { root: child.0.clone(), dir: link_directory(&child.1, id) };
            proof {
                lemma_follows_unread(mid, start, probe);
            }
            let out = do_recursive(&child.0, &visitor, session);
            proof {
                lemma_follows_chain(
                    session@,
                    mid,
                    start,
                    probe,
                    walk::<Linker>(visitor@, child.0@, mid.unread()),
                );
            }
            out
        },
    }
}

/// Withdraws the subtree `child` of the package `id`, if it exists.
fn withdraw_subtree(id: &String, child: &(String, String), session: &mut Session) -> (out: Option<
    Result<(), FileStructureError>,
>)
    requires
        old(session)@.live(),
    ensures
        final(session)@.follows(old(session)@, withdraw_one(id@, child@, old(session)@.unread())),
        outcome(out) == withdraw_one(id@, child@, old(session)@.unread()).out,
{
    let ghost start = session@;
    let ghost probe = ask(RequestView::Exists(child.0@), start.unread());
    match session.ask_flag(Request::Exists(child.0.clone())) {
        None => None,
        Some(false) => Some(Ok(())),
        Some(true) => {
            let ghost mid = session@;
            let visitor = Unlinker { root: child.0.clone(), dir: link_directory(&child.1, id) };
            proof {
                lemma_follows_unread(mid, start, probe);
            }
            let out = do_recursive(&child.0, &visitor, session);
            proof {
                lemma_follows_chain(
                    session@,
                    mid,
                    start,
                    probe,
                    walk::<Unlinker>(visitor@, child.0@, mid.unread()),
                );
            }
            out
        },
    }
}

/// A file structure: what is made for a package, published, withdrawn and
/// removed again.
pub trait FileStructure: Sized {
    /// What `create_all` does on given replies.
    spec fn create_all_run(&self, replies: Seq<ReplyView>) -> Run<Done>;

    /// What `delete_all` does on given replies.
    spec fn delete_all_run(&self, replies: Seq<ReplyView>) -> Run<Done>;

    /// What `move_all` does on given replies.
    spec fn move_all_run(&self, target: Seq<char>, replies: Seq<ReplyView>) -> Run<Done>;

    /// Makes every directory of the structure that does not exist yet.
    fn create_all(&self, session: &mut Session) -> (out: Option<Result<(), FileStructureError>>)
        requires
            old(session)@.live(),
        ensures
            final(session)@.follows(old(session)@, self.create_all_run(old(session)@.unread())),
            outcome(out) == self.create_all_run(old(session)@.unread()).out,
    ;

    /// Removes every directory of the structure that still exists. The
    /// links that were published are not removed by this.
    fn delete_all(&self, session: &mut Session) -> (out: Option<Result<(), FileStructureError>>)
        requires
            old(session)@.live(),
        ensures
            final(session)@.follows(old(session)@, self.delete_all_run(old(session)@.unread())),
            outcome(out) == self.delete_all_run(old(session)@.unread()).out,
    ;

    /// What `symlink_out_scope` does on given replies.
    spec fn symlink_out_scope_run(&self, replies: Seq<ReplyView>) -> Run<Done>;

    /// What `remove_symlinks` does on given replies.
    spec fn remove_symlinks_run(&self, replies: Seq<ReplyView>) -> Run<Done>;

    /// Publishes the files of the structure: every file below a subtree
    /// `<sub>` that exists gets a link of its own, at
    /// `/<sub>/<id>/<path of the file below the subtree>`, and the
    /// directory that is to hold the link is made before it.
    fn symlink_out_scope(&self, session: &mut Session) -> (out: Option<
        Result<(), FileStructureError>,
    >)
        requires
            old(session)@.live(),
        ensures
            final(session)@.follows(
                old(session)@,
                self.symlink_out_scope_run(old(session)@.unread()),
            ),
            outcome(out) == self.symlink_out_scope_run(old(session)@.unread()).out,
    ;

    /// Withdraws the files of the structure: removes the links that
    /// `symlink_out_scope` makes for the files that are there now.
    fn remove_symlinks(&self, session: &mut Session) -> (out: Option<
        Result<(), FileStructureError>,
    >)
        requires
            old(session)@.live(),
        ensures
            final(session)@.follows(
                old(session)@,
                self.remove_symlinks_run(old(session)@.unread()),
            ),
            outcome(out) == self.remove_symlinks_run(old(session)@.unread()).out,
    ;

    /// Copies every subtree that exists to its place below `target`.
    fn move_all(&self, target: &String, session: &mut Session) -> (out: Option<
        Result<(), FileStructureError>,
    >)
        requires
            old(session)@.live(),
        ensures
            final(session)@.follows(
                old(session)@,
                self.move_all_run(target@, old(session)@.unread()),
            ),
            outcome(out) == self.move_all_run(target@, old(session)@.unread()).out,
    ;
}

impl FileStructure for InstallFileStructure {
    open spec fn create_all_run(&self, replies: Seq<ReplyView>) -> Run<Done> {
        create_each(path_bufs(self@), replies)
    }

    open spec fn delete_all_run(&self, replies: Seq<ReplyView>) -> Run<Done> {
        delete_each(path_bufs(self@), replies)
    }

    open spec fn move_all_run(&self, target: Seq<char>, replies: Seq<ReplyView>) -> Run<Done> {
        move_each(children(self@), target, replies)
    }

    fn create_all(&self, session: &mut Session) -> (out: Option<Result<(), FileStructureError>>) {
        let paths = self.get_path_bufs();
        let ghost start = session@;
        let ghost mut done: Seq<RequestView> = Seq::empty();
        let mut i: usize = 0;
        proof {
            assert(views(paths@).skip(0) =~= views(paths@));
            assert(start.asked + done =~= start.asked);
            lemma_after_empty(create_each(views(paths@), start.unread()));
        }
        while i < paths.len()
            invariant
                i <= paths.len(),
                start == old(session)@,
                views(paths@) == path_bufs(self@),
                session@.replies == start.replies,
                session@.asked == start.asked + done,
                session@.live(),
                create_each(views(paths@), start.unread()) == create_each(
                    views(paths@).skip(i as int),
                    session@.unread(),
                ).after(done),
            decreases paths.len() - i,
        {
            let ghost mid = session@;
            let ghost first = create_one(paths[i as int]@, mid.unread());
            let step = create_directory(&paths[i], session);
            proof {
                lemma_next_item(views(paths@), i as int);
                let next = create_each(views(paths@).skip(i + 1), session@.unread());
                lemma_for_each(session@, mid, start, done, first, next);
            }
            match step {
                None => {
                    return None;
                },
                Some(Err(e)) => {
                    return Some(Err(e));
                },
                Some(Ok(())) => {},
            }
            proof {
                done = done + first.asked;
            }
            i += 1;
        }
        proof {
            assert(views(paths@).skip(i as int).len() == 0);
            assert(done + Seq::<RequestView>::empty() =~= done);
        }
        Some(Ok(()))
    }

    fn delete_all(&self, session: &mut Session) -> (out: Option<Result<(), FileStructureError>>) {
        let paths = self.get_path_bufs();
        let ghost start = session@;
        let ghost mut done: Seq<RequestView> = Seq::empty();
        let mut i: usize = 0;
        proof {
            assert(views(paths@).skip(0) =~= views(paths@));
            assert(start.asked + done =~= start.asked);
            lemma_after_empty(delete_each(views(paths@), start.unread()));
        }
        while i < paths.len()
            invariant
                i <= paths.len(),
                start == old(session)@,
                views(paths@) == path_bufs(self@),
                session@.replies == start.replies,
                session@.asked == start.asked + done,
                session@.live(),
                delete_each(views(paths@), start.unread()) == delete_each(
                    views(paths@).skip(i as int),
                    session@.unread(),
                ).after(done),
            decreases paths.len() - i,
        {
            let ghost mid = session@;
            let ghost first = delete_one(paths[i as int]@, mid.unread());
            let step = delete_directory(&paths[i], session);
            proof {
                lemma_next_item(views(paths@), i as int);
                let next = delete_each(views(paths@).skip(i + 1), session@.unread());
                lemma_for_each(session@, mid, start, done, first, next);
            }
            match step {
                None => {
                    return None;
                },
                Some(Err(e)) => {
                    return Some(Err(e));
                },
                Some(Ok(())) => {},
            }
            proof {
                done = done + first.asked;
            }
            i += 1;
        }
        proof {
            assert(views(paths@).skip(i as int).len() == 0);
            assert(done + Seq::<RequestView>::empty() =~= done);
        }
        Some(Ok(()))
    }

    open spec fn symlink_out_scope_run(&self, replies: Seq<ReplyView>) -> Run<Done> {
        project_each(self@, children(self@), replies)
    }

    open spec fn remove_symlinks_run(&self, replies: Seq<ReplyView>) -> Run<Done> {
        withdraw_each(self@, children(self@), replies)
    }

    fn symlink_out_scope(&self, session: &mut Session) -> (out: Option<
        Result<(), FileStructureError>,
    >) {
        let pairs = self.get_children();
        let ghost start = session@;
        let ghost mut done: Seq<RequestView> = Seq::empty();
        let mut i: usize = 0;
        proof {
            assert(views(pairs@).skip(0) =~= views(pairs@));
            assert(start.asked + done =~= start.asked);
            lemma_after_empty(project_each(self@, views(pairs@), start.unread()));
        }
        while i < pairs.len()
            invariant
                i <= pairs.len(),
                start == old(session)@,
                views(pairs@) == children(self@),
                session@.replies == start.replies,
                session@.asked == start.asked + done,
                session@.live(),
                project_each(self@, views(pairs@), start.unread()) == project_each(
                    self@, views(pairs@).skip(i as int),
                    session@.unread(),
                ).after(done),
            decreases pairs.len() - i,
        {
            let ghost mid = session@;
            let ghost first = project_one(self@, pairs[i as int]@, mid.unread());
            let step = project_subtree(&self.id, &pairs[i], session);
            proof {
                lemma_next_item(views(pairs@), i as int);
                let next = project_each(self@, views(pairs@).skip(i + 1), session@.unread());
                lemma_for_each(session@, mid, start, done, first, next);
            }
            match step {
                None => {
                    return None;
                },
                Some(Err(e)) => {
                    return Some(Err(e));
                },
                Some(Ok(())) => {},
            }
            proof {
                done = done + first.asked;
            }
            i += 1;
        }
        proof {
            assert(views(pairs@).skip(i as int).len() == 0);
            assert(done + Seq::<RequestView>::empty() =~= done);
        }
        Some(Ok(()))
    }

    fn remove_symlinks(&self, session: &mut Session) -> (out: Option<
        Result<(), FileStructureError>,
    >) {
        let pairs = self.get_children();
        let ghost start = session@;
        let ghost mut done: Seq<RequestView> = Seq::empty();
        let mut i: usize = 0;
        proof {
            assert(views(pairs@).skip(0) =~= views(pairs@));
            assert(start.asked + done =~= start.asked);
            lemma_after_empty(withdraw_each(self@, views(pairs@), start.unread()));
        }
        while i < pairs.len()
            invariant
                i <= pairs.len(),
                start == old(session)@,
                views(pairs@) == children(self@),
                session@.replies == start.replies,
                session@.asked == start.asked + done,
                session@.live(),
                withdraw_each(self@, views(pairs@), start.unread()) == withdraw_each(
                    self@, views(pairs@).skip(i as int),
                    session@.unread(),
                ).after(done),
            decreases pairs.len() - i,
        {
            let ghost mid = session@;
            let ghost first = withdraw_one(self@, pairs[i as int]@, mid.unread());
            let step = withdraw_subtree(&self.id, &pairs[i], session);
            proof {
                lemma_next_item(views(pairs@), i as int);
                let next = withdraw_each(self@, views(pairs@).skip(i + 1), session@.unread());
                lemma_for_each(session@, mid, start, done, first, next);
            }
            match step {
                None => {
                    return None;
                },
                Some(Err(e)) => {
                    return Some(Err(e));
                },
                Some(Ok(())) => {},
            }
            proof {
                done = done + first.asked;
            }
            i += 1;
        }
        proof {
            assert(views(pairs@).skip(i as int).len() == 0);
            assert(done + Seq::<RequestView>::empty() =~= done);
        }
        Some(Ok(()))
    }

    fn move_all(&self, target: &String, session: &mut Session) -> (out: Option<
        Result<(), FileStructureError>,
    >) {
        let pairs = self.get_children();
        let ghost start = session@;
        let ghost mut done: Seq<RequestView> = Seq::empty();
        let mut i: usize = 0;
        proof {
            assert(views(pairs@).skip(0) =~= views(pairs@));
            assert(start.asked + done =~= start.asked);
            lemma_after_empty(move_each(views(pairs@), target@, start.unread()));
        }
        while i < pairs.len()
            invariant
                i <= pairs.len(),
                start == old(session)@,
                views(pairs@) == children(self@),
                session@.replies == start.replies,
                session@.asked == start.asked + done,
                session@.live(),
                move_each(views(pairs@), target@, start.unread()) == move_each(
                    views(pairs@).skip(i as int),
                    target@,
                    session@.unread(),
                ).after(done),
            decreases pairs.len() - i,
        {
            let ghost mid = session@;
            let ghost first = move_one(pairs[i as int]@, target@, mid.unread());
            let step = move_subtree(&pairs[i], target, session);
            proof {
                lemma_next_item(views(pairs@), i as int);
                let next = move_each(views(pairs@).skip(i + 1), target@, session@.unread());
                lemma_for_each(session@, mid, start, done, first, next);
            }
            match step {
                None => {
                    return None;
                },
                Some(Err(e)) => {
                    return Some(Err(e));
                },
                Some(Ok(())) => {},
            }
            proof {
                done = done + first.asked;
            }
            i += 1;
        }
        proof {
            assert(views(pairs@).skip(i as int).len() == 0);
            assert(done + Seq::<RequestView>::empty() =~= done);
        }
        Some(Ok(()))
    }
}

} // verus!
