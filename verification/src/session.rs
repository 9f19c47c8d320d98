//! The conversation between a procedure of this library and its host.
//!
//! The library never touches the file system or a process. A procedure asks
//! for each such step with a [`Request`] and reads the host's [`Reply`]. A
//! [`Session`] holds the replies that the host has given so far, in order. A
//! procedure run on a session consumes them one by one; at the first request
//! without a reply the session is suspended and the procedure returns `None`.
//! The host then performs [`Session::pending`], adds the reply to the list
//! and runs the same procedure on a new session. As long as the host repeats
//! the replies faithfully, the procedure asks the same questions again and
//! gets one step further: see [`continues`], and [`crate::replay`] for the
//! proof of it.

use crate::text::{lemma_views_push, views};
use vstd::prelude::*;
use vstd::string::*;

verus! {

/// Why the host could not do what was asked.
#[derive(Clone, Copy, Debug, PartialEq, Eq, Structural)]
pub enum FailureKind {
    NotFound,
    AlreadyExists,
    PermissionDenied,
    Other,
}

/// A failed step, with the host's message.
#[derive(Debug, PartialEq, Eq)]
pub struct Failure {
    pub kind: FailureKind,
    pub message: String,
}

/// What a [`Failure`] holds, each text as the sequence of its characters.
pub struct FailureView {
    pub kind: FailureKind,
    pub message: Seq<char>,
}

impl View for Failure {
    type V = FailureView;

    open spec fn view(&self) -> FailureView {
        FailureView { kind: self.kind, message: self.message@ }
    }
}

impl Clone for Failure {
    fn clone(&self) -> (out: Self)
        ensures
            out == *self,
    {
        Failure { kind: self.kind, message: self.message.clone() }
    }
}

/// What an entry of a directory is. A symbolic link is `Other`, whatever it
/// points to.
#[derive(Clone, Copy, Debug, PartialEq, Eq, Structural)]
pub enum EntryKind {
    File,
    Directory,
    Other,
}

/// An entry of a directory: its whole path and its kind.
#[derive(Debug, PartialEq, Eq)]
pub struct DirEntry {
    pub path: String,
    pub kind: EntryKind,
}

/// What a [`DirEntry`] holds, each text as the sequence of its characters.
pub struct DirEntryView {
    pub path: Seq<char>,
    pub kind: EntryKind,
}

impl View for DirEntry {
    type V = DirEntryView;

    open spec fn view(&self) -> DirEntryView {
        DirEntryView { path: self.path@, kind: self.kind }
    }
}

impl Clone for DirEntry {
    fn clone(&self) -> (out: Self)
        ensures
            out == *self,
    {
        DirEntry { path: self.path.clone(), kind: self.kind }
    }
}

/// A step that the host is asked to perform.
#[derive(Debug, PartialEq, Eq)]
pub enum Request {
    /// Does the path exist? Answered by `Reply::Flag`.
    Exists(String),
    /// Create the directory and every missing directory above it. That the
    /// directory is there already is no failure.
    CreateDirAll(String),
    /// Remove the directory with all that it holds.
    RemoveDirAll(String),
    /// Remove the file or the symbolic link.
    RemoveFile(String),
    /// Copy the first path to the second: a file, or a directory with all
    /// that it holds.
    Copy(String, String),
    /// Create at the second path a symbolic link to the first.
    Symlink(String, String),
    /// List the entries of the directory. Answered by `Reply::Entries`.
    ReadDir(String),
    /// Read the file as text. Answered by `Reply::Text`.
    ReadFile(String),
    /// Create or truncate the file at the path and write the text to it.
    WriteFile(String, String),
    /// Name the working directory. Answered by `Reply::Text`.
    CurrentDir,
    /// Make the path the working directory.
    SetCurrentDir(String),
    /// Start the program with the arguments.
    Spawn(String, Vec<String>),
    /// Wait until the program started last has ended.
    Wait,
    /// Is the package of this name built? Answered by `Reply::Flag`.
    IsBuilt(String),
    /// Build the package of this name.
    Build(String),
    /// Install the package of this name.
    Install(String),
    /// Uninstall the package of this name.
    Uninstall(String),
    /// Update the package in this directory of a repository, which is
    /// installed in the version given.
    Update(String, String),
}

/// What a [`Request`] holds, each text as the sequence of its characters.
pub enum RequestView {
    Exists(Seq<char>),
    CreateDirAll(Seq<char>),
    RemoveDirAll(Seq<char>),
    RemoveFile(Seq<char>),
    Copy(Seq<char>, Seq<char>),
    Symlink(Seq<char>, Seq<char>),
    ReadDir(Seq<char>),
    ReadFile(Seq<char>),
    WriteFile(Seq<char>, Seq<char>),
    CurrentDir,
    SetCurrentDir(Seq<char>),
    Spawn(Seq<char>, Seq<Seq<char>>),
    Wait,
    IsBuilt(Seq<char>),
    Build(Seq<char>),
    Install(Seq<char>),
    Uninstall(Seq<char>),
    Update(Seq<char>, Seq<char>),
}

impl View for Request {
    type V = RequestView;

    open spec fn view(&self) -> RequestView {
        match self {
            Request::Exists(p) => RequestView::Exists(p@),
            Request::CreateDirAll(p) => RequestView::CreateDirAll(p@),
            Request::RemoveDirAll(p) => RequestView::RemoveDirAll(p@),
            Request::RemoveFile(p) => RequestView::RemoveFile(p@),
            Request::Copy(p, q) => RequestView::Copy(p@, q@),
            Request::Symlink(p, q) => RequestView::Symlink(p@, q@),
            Request::ReadDir(p) => RequestView::ReadDir(p@),
            Request::ReadFile(p) => RequestView::ReadFile(p@),
            Request::WriteFile(p, t) => RequestView::WriteFile(p@, t@),
            Request::CurrentDir => RequestView::CurrentDir,
            Request::SetCurrentDir(p) => RequestView::SetCurrentDir(p@),
            Request::Spawn(p, args) => RequestView::Spawn(p@, views(args@)),
            Request::Wait => RequestView::Wait,
            Request::IsBuilt(n) => RequestView::IsBuilt(n@),
            Request::Build(n) => RequestView::Build(n@),
            Request::Install(n) => RequestView::Install(n@),
            Request::Uninstall(n) => RequestView::Uninstall(n@),
            Request::Update(n, v) => RequestView::Update(n@, v@),
        }
    }
}

/// What the host answers.
#[derive(Debug, PartialEq, Eq)]
pub enum Reply {
    /// The answer to a question.
    Flag(bool),
    /// The step was performed.
    Done,
    /// The step failed.
    Failed(Failure),
    /// The text that was asked for.
    Text(String),
    /// The entries of the directory that was asked for, in the order in
    /// which the file system gave them.
    Entries(Vec<DirEntry>),
}

/// What a [`Reply`] holds, each text as the sequence of its characters.
pub enum ReplyView {
    Flag(bool),
    Done,
    Failed(FailureView),
    Text(Seq<char>),
    Entries(Seq<DirEntryView>),
}

impl View for Reply {
    type V = ReplyView;

    open spec fn view(&self) -> ReplyView {
        match self {
            Reply::Flag(b) => ReplyView::Flag(*b),
            Reply::Done => ReplyView::Done,
            Reply::Failed(f) => ReplyView::Failed(f@),
            Reply::Text(t) => ReplyView::Text(t@),
            Reply::Entries(e) => ReplyView::Entries(views(e@)),
        }
    }
}

/// The failure that stands for a reply of a shape that the request does not
/// allow.
pub open spec fn unexpected() -> FailureView {
    FailureView { kind: FailureKind::Other, message: "unexpected reply"@ }
}

impl ReplyView {
    /// The reply read as the answer to a question: `false` unless it is
    /// `Flag(true)`.
    pub open spec fn flag(self) -> bool {
        self == ReplyView::Flag(true)
    }

    /// The reply read as the outcome of a step.
    pub open spec fn done(self) -> Result<(), FailureView> {
        match self {
            ReplyView::Done => Ok(()),
            ReplyView::Failed(f) => Err(f),
            _ => Err(unexpected()),
        }
    }

    /// The reply read as a text.
    pub open spec fn text(self) -> Result<Seq<char>, FailureView> {
        match self {
            ReplyView::Text(t) => Ok(t),
            ReplyView::Failed(f) => Err(f),
            _ => Err(unexpected()),
        }
    }

    /// The reply read as the entries of a directory.
    pub open spec fn entries(self) -> Result<Seq<DirEntryView>, FailureView> {
        match self {
            ReplyView::Entries(e) => Ok(e),
            ReplyView::Failed(f) => Err(f),
            _ => Err(unexpected()),
        }
    }
}

/// What a procedure does on a given list of replies: the requests it makes,
/// in order, and its result, or `None` where the replies ran out first.
pub struct Run<T> {
    pub asked: Seq<RequestView>,
    pub out: Option<T>,
}

impl<T> Run<T> {
    /// The run that asks nothing and returns `value`.
    pub open spec fn finished(value: T) -> Run<T> {
        Run { asked: Seq::empty(), out: Some(value) }
    }

    /// This run, made after the requests `before`.
    pub open spec fn after(self, before: Seq<RequestView>) -> Run<T> {
        Run { asked: before + self.asked, out: self.out }
    }

    /// A run that makes the same requests and stopped for want of a reply.
    pub open spec fn stopped<U>(self) -> Run<U> {
        Run { asked: self.asked, out: None }
    }

    /// A run that makes the same requests and returns `value`.
    pub open spec fn giving<U>(self, value: U) -> Run<U> {
        Run { asked: self.asked, out: Some(value) }
    }

    /// The replies left for what comes after this run.
    pub open spec fn rest(self, replies: Seq<ReplyView>) -> Seq<ReplyView> {
        if self.asked.len() <= replies.len() {
            replies.skip(self.asked.len() as int)
        } else {
            Seq::empty()
        }
    }
}

/// The replies that are left of `replies` once the requests `before` have
/// had theirs.
pub open spec fn left(replies: Seq<ReplyView>, before: Seq<RequestView>) -> Seq<ReplyView> {
    if before.len() <= replies.len() {
        replies.skip(before.len() as int)
    } else {
        Seq::empty()
    }
}

/// One request: its reply is the first of `replies`, if there is one.
pub open spec fn ask(request: RequestView, replies: Seq<ReplyView>) -> Run<ReplyView> {
    Run { asked: seq![request], out: if replies.len() > 0 { Some(replies[0]) } else { None } }
}

/// What a [`Session`] holds, each text as the sequence of its characters.
pub struct SessionView {
    /// The replies that the host has given, in order.
    pub replies: Seq<ReplyView>,
    /// The requests made so far, in order. The reply to `asked[i]` is
    /// `replies[i]`.
    pub asked: Seq<RequestView>,
}

impl SessionView {
    /// No request waits for a reply.
    pub open spec fn live(self) -> bool {
        self.asked.len() <= self.replies.len()
    }

    /// The last request waits for a reply.
    pub open spec fn suspended(self) -> bool {
        self.asked.len() == self.replies.len() + 1
    }

    /// The replies that no request has consumed yet.
    pub open spec fn unread(self) -> Seq<ReplyView> {
        self.replies.skip(self.asked.len() as int)
    }

    /// This session is `before` after a procedure made `run` on it.
    pub open spec fn follows<T>(self, before: SessionView, run: Run<T>) -> bool {
        &&& self.replies == before.replies
        &&& self.asked == before.asked + run.asked
        &&& run.out is Some ==> self.live()
        &&& run.out is None ==> self.suspended()
    }
}

/// The replies of the host and the requests made on them.
pub struct Session {
    replies: Vec<Reply>,
    asked: Vec<Request>,
}

impl View for Session {
    type V = SessionView;

    closed spec fn view(&self) -> SessionView {
        SessionView { replies: views(self.replies@), asked: views(self.asked@) }
    }
}

/// After a run that finished, the replies left are those that were left
/// before, without the ones that the run consumed.
pub proof fn lemma_follows_unread<T>(after: SessionView, before: SessionView, run: Run<T>)
    requires
        before.live(),
        after.follows(before, run),
        run.out is Some,
    ensures
        after.unread() == run.rest(before.unread()),
{
    assert(after.unread() =~= run.rest(before.unread()));
}

/// Two runs made one after the other are one run.
pub proof fn lemma_follows_chain<T, U>(
    last: SessionView,
    mid: SessionView,
    first: SessionView,
    one: Run<T>,
    two: Run<U>,
)
    requires
        mid.follows(first, one),
        last.follows(mid, two),
    ensures
        last.follows(first, two.after(one.asked)),
{
    assert(last.asked =~= first.asked + (one.asked + two.asked));
}

/// Two runs made one after the other are one run, and what the second left
/// unread is what that one run leaves unread.
pub proof fn lemma_step<T, U>(
    last: SessionView,
    mid: SessionView,
    first: SessionView,
    one: Run<T>,
    two: Run<U>,
)
    requires
        first.live(),
        mid.follows(first, one),
        last.follows(mid, two),
    ensures
        last.follows(first, two.after(one.asked)),
        two.out is Some ==> last.unread() == two.after(one.asked).rest(first.unread()),
{
    lemma_follows_chain(last, mid, first, one, two);
    if two.out is Some {
        lemma_follows_unread(last, first, two.after(one.asked));
    }
}

/// One step of a procedure that makes a run for each item of a list, until
/// the first that fails. The session was `start` before the first item and
/// `mid` before this one, after the requests `done`; the step has made the
/// run `first` on it and left it as `now`. So far the session has followed
/// `done` and `first`, and the steps for the items after this one, which
/// make `next`, are made after both; where the step has finished, they are
/// made on what it has left of the replies.
pub proof fn lemma_for_each<T>(
    now: SessionView,
    mid: SessionView,
    start: SessionView,
    done: Seq<RequestView>,
    first: Run<T>,
    next: Run<T>,
)
    requires
        mid.replies == start.replies,
        mid.asked == start.asked + done,
        mid.live(),
        now.follows(mid, first),
    ensures
        now.replies == start.replies,
        now.asked == start.asked + (done + first.asked),
        now.follows(start, first.after(done)),
        first.out is Some ==> now.unread() == first.rest(mid.unread()),
        next.after(first.asked).after(done) == next.after(done + first.asked),
{
    assert(now.asked =~= start.asked + (done + first.asked));
    lemma_after_after(next, first.asked, done);
    if first.out is Some {
        lemma_follows_unread(now, mid, first);
    }
}

/// The items of a list from the `i`th on are the `i`th and those after it.
pub proof fn lemma_next_item<A>(items: Seq<A>, i: int)
    requires
        0 <= i < items.len(),
    ensures
        items.skip(i)[0] == items[i],
        items.skip(i).drop_first() == items.skip(i + 1),
{
    assert(items.skip(i).drop_first() =~= items.skip(i + 1));
}

/// A run made after nothing is the run itself.
pub proof fn lemma_after_empty<T>(run: Run<T>)
    ensures
        run.after(Seq::empty()) == run,
{
    assert(Seq::<RequestView>::empty() + run.asked =~= run.asked);
}

/// A run made after `one` and then after `before` is made after both.
pub proof fn lemma_after_after<T>(run: Run<T>, one: Seq<RequestView>, before: Seq<RequestView>)
    ensures
        run.after(one).after(before) == run.after(before + one),
{
    assert(before + (one + run.asked) =~= (before + one) + run.asked);
}

/// Whether `long`, a procedure's run on `replies` and more replies, goes on
/// from `short`, its run on `replies` alone: a run that has finished stays
/// as it is, and a run that has stopped for want of a reply has asked one
/// request more than it had replies, and asks the same again before it asks
/// anything else.
pub open spec fn continues<T>(short: Run<T>, long: Run<T>, replies: Seq<ReplyView>) -> bool {
    if short.out is Some {
        long == short && short.asked.len() <= replies.len()
    } else {
        short.asked.len() == replies.len() + 1 && short.asked.is_prefix_of(long.asked)
    }
}

/// One request goes on as it began.
pub proof fn lemma_ask_continues(
    request: RequestView,
    replies: Seq<ReplyView>,
    more: Seq<ReplyView>,
)
    ensures
        continues(ask(request, replies), ask(request, replies + more), replies),
{
    assert(seq![request].is_prefix_of(seq![request]));
}

/// What a run leaves of a longer list of replies is what it leaves of the
/// shorter one, and the rest of the longer.
pub proof fn lemma_rest_more<T>(run: Run<T>, replies: Seq<ReplyView>, more: Seq<ReplyView>)
    requires
        run.asked.len() <= replies.len(),
    ensures
        run.rest(replies + more) == run.rest(replies) + more,
{
    assert(run.rest(replies + more) =~= run.rest(replies) + more);
}

/// Runs that go on as they began do so after the same requests too.
pub proof fn lemma_continues_after<T>(
    short: Run<T>,
    long: Run<T>,
    before: Seq<RequestView>,
    replies: Seq<ReplyView>,
)
    requires
        before.len() <= replies.len(),
        continues(short, long, replies.skip(before.len() as int)),
    ensures
        continues(short.after(before), long.after(before), replies),
{
    if short.out is None {
        assert((before + short.asked).is_prefix_of(before + long.asked)) by {
            assert((before + long.asked).subrange(0, (before + short.asked).len() as int)
                =~= before + short.asked);
        }
    }
}

/// Where a part of a procedure has stopped for want of a reply, the
/// procedure has stopped there, and goes on from there.
pub proof fn lemma_stopped_continues<T, U>(
    short: Run<T>,
    long: Run<T>,
    whole: Run<U>,
    replies: Seq<ReplyView>,
)
    requires
        short.out is None,
        continues(short, long, replies),
        long.asked.is_prefix_of(whole.asked),
    ensures
        continues(short.stopped::<U>(), whole, replies),
{
    assert(short.asked =~= whole.asked.subrange(0, short.asked.len() as int));
}

/// A run is the beginning of itself and what follows.
pub proof fn lemma_prefix_after<T>(run: Run<T>, before: Seq<RequestView>)
    ensures
        before.is_prefix_of(run.after(before).asked),
{
    assert(run.after(before).asked.subrange(0, before.len() as int) =~= before);
}

/// A request made after the requests `before` goes on as it began.
pub proof fn lemma_ask_after_continues(
    request: RequestView,
    before: Seq<RequestView>,
    replies: Seq<ReplyView>,
    more: Seq<ReplyView>,
)
    requires
        before.len() <= replies.len(),
    ensures
        continues(
            ask(request, replies.skip(before.len() as int)).after(before),
            ask(request, (replies + more).skip(before.len() as int)).after(before),
            replies,
        ),
{
    let rest = replies.skip(before.len() as int);
    assert((replies + more).skip(before.len() as int) =~= rest + more);
    lemma_ask_continues(request, rest, more);
    lemma_continues_after(ask(request, rest), ask(request, rest + more), before, replies);
}

impl Session {
    /// A session on the replies given so far, with no request made yet.
    pub fn new(replies: Vec<Reply>) -> (session: Session)
        ensures
            session@.replies == views(replies@),
            session@.asked == Seq::<RequestView>::empty(),
            session@.live(),
    {
        let session = Session { replies, asked: Vec::new() };
        proof {
            assert(views(session.asked@) =~= Seq::<RequestView>::empty());
        }
        session
    }

    /// The request that waits for a reply, if the session is suspended.
    pub fn pending(&self) -> (request: Option<&Request>)
        ensures
            request is Some == self@.suspended(),
            request is Some ==> request->0@ == self@.asked.last(),
    {
        let n = self.asked.len();
        if n > 0 && n - 1 == self.replies.len() {
            Some(&self.asked[n - 1])
        } else {
            None
        }
    }

    /// The requests made so far.
    pub fn requests(&self) -> (requests: &Vec<Request>)
        ensures
            views(requests@) == self@.asked,
    {
        &self.asked
    }

    /// The replies that the session was made with.
    pub fn into_replies(self) -> (replies: Vec<Reply>)
        ensures
            views(replies@) == self@.replies,
    {
        self.replies
    }

    /// Makes `request`; gives the place of its reply, if there is one.
    fn put(&mut self, request: Request) -> (at: Option<usize>)
        requires
            old(self)@.live(),
        ensures
            final(self)@.follows(old(self)@, ask(request@, old(self)@.unread())),
            final(self).replies == old(self).replies,
            match at {
                Some(i) => i < old(self).replies.len() && old(self)@.unread().len() > 0
                    && old(self).replies[i as int]@ == old(self)@.unread()[0],
                None => old(self)@.unread().len() == 0,
            },
    {
        let i = self.asked.len();
        proof {
            lemma_views_push(self.asked@, request);
            assert(views(self.asked@).push(request@) =~= views(self.asked@) + seq![request@]);
        }
        self.asked.push(request);
        if i < self.replies.len() {
            Some(i)
        } else {
            None
        }
    }

    /// Asks a question. A reply other than `Flag(true)` counts as no.
    pub fn ask_flag(&mut self, request: Request) -> (out: Option<bool>)
        requires
            old(self)@.live(),
        ensures
            final(self)@.follows(old(self)@, ask(request@, old(self)@.unread())),
            out == match ask(request@, old(self)@.unread()).out {
                Some(reply) => Some(reply.flag()),
                None => None,
            },
    {
        match self.put(request) {
            Some(i) => match &self.replies[i] {
                Reply::Flag(b) => Some(*b),
                _ => Some(false),
            },
            None => None,
        }
    }

    /// Asks for a step. A reply other than `Done` or `Failed` counts as a
    /// failure.
    pub fn ask_done(&mut self, request: Request) -> (out: Option<Result<(), Failure>>)
        requires
            old(self)@.live(),
        ensures
            final(self)@.follows(old(self)@, ask(request@, old(self)@.unread())),
            outcome(out) == match ask(request@, old(self)@.unread()).out {
                Some(reply) => Some(reply.done()),
                None => None,
            },
    {
        match self.put(request) {
            Some(i) => match &self.replies[i] {
                Reply::Done => Some(Ok(())),
                Reply::Failed(f) => Some(Err(f.clone())),
                _ => Some(Err(unexpected_reply())),
            },
            None => None,
        }
    }

    /// Asks for a text. A reply other than `Text` or `Failed` counts as a
    /// failure.
    pub fn ask_text(&mut self, request: Request) -> (out: Option<Result<String, Failure>>)
        requires
            old(self)@.live(),
        ensures
            final(self)@.follows(old(self)@, ask(request@, old(self)@.unread())),
            outcome(out) == match ask(request@, old(self)@.unread()).out {
                Some(reply) => Some(reply.text()),
                None => None,
            },
    {
        match self.put(request) {
            Some(i) => match &self.replies[i] {
                Reply::Text(t) => Some(Ok(t.clone())),
                Reply::Failed(f) => Some(Err(f.clone())),
                _ => Some(Err(unexpected_reply())),
            },
            None => None,
        }
    }

    /// Asks for the entries of a directory. A reply other than `Entries` or
    /// `Failed` counts as a failure.
    pub fn ask_entries(&mut self, request: Request) -> (out: Option<Result<Vec<DirEntry>, Failure>>)
        requires
            old(self)@.live(),
        ensures
            final(self)@.follows(old(self)@, ask(request@, old(self)@.unread())),
            listing(out) == match ask(request@, old(self)@.unread()).out {
                Some(reply) => Some(reply.entries()),
                None => None,
            },
    {
        match self.put(request) {
            Some(i) => match &self.replies[i] {
                Reply::Entries(e) => Some(Ok(copy_entries(e))),
                Reply::Failed(f) => Some(Err(f.clone())),
                _ => Some(Err(unexpected_reply())),
            },
            None => None,
        }
    }
}

/// The view of what a procedure returned.
pub open spec fn outcome<T: View, E: View>(out: Option<Result<T, E>>) -> Option<
    Result<T::V, E::V>,
> {
    match out {
        Some(Ok(v)) => Some(Ok(v@)),
        Some(Err(e)) => Some(Err(e@)),
        None => None,
    }
}

/// The view of a listing that was asked for.
pub open spec fn listing(out: Option<Result<Vec<DirEntry>, Failure>>) -> Option<
    Result<Seq<DirEntryView>, FailureView>,
> {
    match out {
        Some(Ok(v)) => Some(Ok(views(v@))),
        Some(Err(e)) => Some(Err(e@)),
        None => None,
    }
}

/// The failure that stands for a reply of the wrong shape.
pub fn unexpected_reply() -> (failure: Failure)
    ensures
        failure@ == unexpected(),
{
    Failure { kind: FailureKind::Other, message: String::from_str("unexpected reply") }
}

/// A copy of `entries`.
pub fn copy_entries(entries: &Vec<DirEntry>) -> (out: Vec<DirEntry>)
    ensures
        out@ == entries@,
{
    let mut out: Vec<DirEntry> = Vec::new();
    let mut i: usize = 0;
    while i < entries.len()
        invariant
            i <= entries.len(),
            out@ == entries@.take(i as int),
        decreases entries.len() - i,
    {
        out.push(entries[i].clone());
        proof {
            assert(entries@.take(i + 1) =~= entries@.take(i as int).push(entries@[i as int]));
        }
        i += 1;
    }
    proof {
        assert(entries@.take(entries.len() as int) =~= entries@);
    }
    out
}

/// A copy of `texts`.
pub fn copy_texts(texts: &Vec<String>) -> (out: Vec<String>)
    ensures
        out@ == texts@,
{
    let mut out: Vec<String> = Vec::new();
    let mut i: usize = 0;
    while i < texts.len()
        invariant
            i <= texts.len(),
            out@ == texts@.take(i as int),
        decreases texts.len() - i,
    {
        out.push(texts[i].clone());
        proof {
            assert(texts@.take(i + 1) =~= texts@.take(i as int).push(texts@[i as int]));
        }
        i += 1;
    }
    proof {
        assert(texts@.take(texts.len() as int) =~= texts@);
    }
    out
}

} // verus!
