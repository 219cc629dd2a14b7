//! The workspace commit: a commit whose parents are the tips of the applied
//! stacks, whose tree is their merge, and whose message tells it apart from
//! every other commit.

pub mod merge;

use crate::id::{empty_tree_bytes, hex, HashKind, ObjectId};
use crate::refname::{lossy_text, to_str_lossy};
use vstd::prelude::*;
use vstd::string::*;

verus! {

/// A minimal stack: what a workspace commit records of one applied
/// branch-line.
#[derive(Clone, Debug)]
pub struct Stack {
    /// The tip of the top-most branch, which becomes a parent of the
    /// workspace commit.
    pub tip: ObjectId,
    /// The short name of the top-most branch, like `main` or
    /// `feature/branch`.
    pub name: Option<Vec<u8>>,
}

/// What a `Stack` holds, as mathematical values.
pub struct StackView {
    pub tip: ObjectId,
    pub name: Option<Seq<u8>>,
}

impl View for Stack {
    type V = StackView;

    open spec fn view(&self) -> StackView {
        StackView {
            tip: self.tip,
            name: match self.name {
                Some(name) => Some(name@),
                None => None,
            },
        }
    }
}

/// The stacks of a vector, each by its view.
pub open spec fn stack_views(stacks: Seq<Stack>) -> Seq<StackView> {
    Seq::new(stacks.len(), |i: int| stacks[i]@)
}

/// A point in time with the offset of its time zone.
#[derive(Clone, Copy, Debug, PartialEq, Eq, Structural)]
pub struct Time {
    /// Seconds since the Unix epoch.
    pub seconds: i64,
    /// The offset from UTC in seconds.
    pub offset: i32,
}

/// Who did something, and when.
#[derive(Clone, Debug)]
pub struct Signature {
    pub name: String,
    pub email: String,
    pub time: Time,
}

/// What a `Signature` holds, as mathematical values.
pub struct SignatureView {
    pub name: Seq<char>,
    pub email: Seq<char>,
    pub time: Time,
}

impl View for Signature {
    type V = SignatureView;

    open spec fn view(&self) -> SignatureView {
        SignatureView { name: self.name@, email: self.email@, time: self.time }
    }
}

/// A commit that is not written yet.
#[derive(Clone, Debug)]
pub struct Commit {
    /// The tree that the commit records.
    pub tree: ObjectId,
    /// The parents, in order.
    pub parents: Vec<ObjectId>,
    pub author: Signature,
    pub committer: Signature,
    /// The name of the encoding of the message.
    pub encoding: Option<String>,
    pub message: String,
    /// Further header fields, each a name and a value.
    pub extra_headers: Vec<(Vec<u8>, Vec<u8>)>,
}

/// What a `Commit` holds, as mathematical values.
pub struct CommitView {
    pub tree: ObjectId,
    pub parents: Seq<ObjectId>,
    pub author: SignatureView,
    pub committer: SignatureView,
    pub encoding: Option<Seq<char>>,
    pub message: Seq<char>,
    pub extra_headers: Seq<(Seq<u8>, Seq<u8>)>,
}

impl View for Commit {
    type V = CommitView;

    open spec fn view(&self) -> CommitView {
        CommitView {
            tree: self.tree,
            parents: self.parents@,
            author: self.author@,
            committer: self.committer@,
            encoding: match self.encoding {
                Some(encoding) => Some(encoding@),
                None => None,
            },
            message: self.message@,
            extra_headers: Seq::new(
                self.extra_headers@.len(),
                |i: int| (self.extra_headers@[i].0@, self.extra_headers@[i].1@),
            ),
        }
    }
}

/// What the message says of one stack: the text of its name, if it has one,
/// and its tip in hexadecimal notation.
pub struct Entry {
    pub name: Option<Seq<char>>,
    pub head: Seq<char>,
}

/// The title by which a workspace commit is known.
pub open spec fn title() -> Seq<char> {
    "GitButler Workspace Commit"@
}

/// The lines of the message that present one stack.
pub open spec fn entry_text(entry: Entry) -> Seq<char> {
    let name_line = match entry.name {
        Some(name) => " - "@ + name + "\n"@,
        None => Seq::<char>::empty(),
    };
    name_line + "   branch head: "@ + entry.head + "\n"@
}

/// The lines of the message that present the stacks, in order.
pub open spec fn entries_text(entries: Seq<Entry>) -> Seq<char>
    decreases entries.len(),
{
    if entries.len() == 0 {
        Seq::<char>::empty()
    } else {
        entries_text(entries.drop_last()) + entry_text(entries.last())
    }
}

/// The part of the message that follows the title and its blank line.
pub open spec fn body_text(entries: Seq<Entry>) -> Seq<char> {
    let opening = if entries.len() > 0 {
        "This is a merge commit of the virtual branches in your workspace.\n\n"@
    } else {
        "This is placeholder commit and will be replaced by a merge of your virtual branches.\n\n"@
    };
    let listing = if entries.len() > 0 {
        "Here are the branches that are currently applied:\n"@ + entries_text(entries)
    } else {
        Seq::<char>::empty()
    };
    opening
        + "Due to GitButler managing multiple virtual branches, you cannot switch back and\n"@
        + "forth between git branches and virtual branches easily. \n\n"@
        + "If you switch to another branch, GitButler will need to be reinitialized.\n"@
        + "If you commit on this branch, GitButler will throw it away.\n\n"@
        + listing
        + "For more information about what we're doing here, check out our docs:\n"@
        + "https://docs.gitbutler.com/features/branch-management/integration-branch\n"@
}

/// The message of the workspace commit over the given stacks.
pub open spec fn message_text(entries: Seq<Entry>) -> Seq<char> {
    title() + "\n\n"@ + body_text(entries)
}

/// Whether a message is that of a workspace commit: its first line is the
/// title.
pub open spec fn is_managed_message(message: Seq<char>) -> bool {
    &&& message.len() >= title().len()
    &&& message.subrange(0, title().len() as int) =~= title()
    &&& (message.len() == title().len() || message[title().len() as int] == '\n')
}

/// What the message says of a stack.
pub open spec fn entry_of(stack: StackView) -> Entry {
    Entry {
        name: match stack.name {
            Some(name) => Some(lossy_text(name)),
            None => None,
        },
        head: hex(stack.tip@),
    }
}

/// What the message says of each of the stacks.
pub open spec fn entries_of(stacks: Seq<StackView>) -> Seq<Entry> {
    Seq::new(stacks.len(), |i: int| entry_of(stacks[i]))
}

/// The lines that present one stack in the message of a workspace commit.
pub fn branch_entry(name: Option<&str>, head: &str) -> (text: String)
    ensures
        text@ == entry_text(
            Entry {
                name: match name {
                    Some(name) => Some(name@),
                    None => None,
                },
                head: head@,
            },
        ),
{
    let mut text = String::new();
    if let Some(name) = name {
        text.append(" - ");
        text.append(name);
        text.append("\n");
    }
    assert(text@ =~= match name {
        Some(name) => " - "@ + name@ + "\n"@,
        None => Seq::<char>::empty(),
    });
    text.append("   branch head: ");
    text.append(head);
    text.append("\n");
    text
}

/// The message of the workspace commit over the given stacks.
fn workspace_message(stacks: &Vec<Stack>) -> (message: String)
    ensures
        message@ == message_text(entries_of(stack_views(stacks@))),
{
    let ghost views = stack_views(stacks@);
    let mut message = String::from_str("GitButler Workspace Commit");
    message.append("\n\n");
    if stacks.len() > 0 {
        message.append("This is a merge commit of the virtual branches in your workspace.\n\n");
    } else {
        message.append(
            "This is placeholder commit and will be replaced by a merge of your virtual branches.\n\n",
        );
    }
    message.append(
        "Due to GitButler managing multiple virtual branches, you cannot switch back and\n",
    );
    message.append("forth between git branches and virtual branches easily. \n\n");
    message.append("If you switch to another branch, GitButler will need to be reinitialized.\n");
    message.append("If you commit on this branch, GitButler will throw it away.\n\n");
    if stacks.len() > 0 {
        message.append("Here are the branches that are currently applied:\n");
        let ghost listed = message@;
        let mut i: usize = 0;
        assert(entries_of(views.take(0)) =~= Seq::<Entry>::empty());
        while i < stacks.len()
            invariant
                i <= stacks.len(),
                views == stack_views(stacks@),
                message@ == listed + entries_text(entries_of(views.take(i as int))),
            decreases stacks.len() - i,
        {
            let stack = &stacks[i];
            let head = stack.tip.to_hex();
            let text = match &stack.name {
                Some(name) => {
                    let name = to_str_lossy(name);
                    branch_entry(Some(name.as_str()), head.as_str())
                },
                None => branch_entry(None, head.as_str()),
            };
            proof {
                let before = entries_of(views.take(i as int));
                let after = entries_of(views.take(i + 1));
                assert(after.drop_last() =~= before);
                assert(after.last() == entry_of(views[i as int]));
                assert(text@ == entry_text(after.last()));
            }
            message.append(text.as_str());
            i += 1;
        }
        assert(views.take(stacks.len() as int) =~= views);
    }
    message.append("For more information about what we're doing here, check out our docs:\n");
    message.append("https://docs.gitbutler.com/features/branch-management/integration-branch\n");
    assert(message@ =~= message_text(entries_of(views)));
    message
}

/// The identity under which workspace commits are made.
pub open spec fn signature_at(time: Time) -> SignatureView {
    SignatureView { name: "GitButler"@, email: "gitbutler@gitbutler.com"@, time }
}

/// The workspace commit over the given stacks with the given tree, made at
/// the given time: the tips are its parents, in order, and the message lists
/// the stacks.
pub open spec fn workspace_commit(
    stacks: Seq<StackView>,
    tree: ObjectId,
    time: Time,
) -> CommitView {
    CommitView {
        tree,
        parents: Seq::new(stacks.len(), |i: int| stacks[i].tip),
        author: signature_at(time),
        committer: signature_at(time),
        encoding: Some("UTF-8"@),
        message: message_text(entries_of(stacks)),
        extra_headers: Seq::empty(),
    }
}

/// A commit with the times of both signatures replaced.
pub open spec fn with_times(commit: CommitView, time: Time) -> CommitView {
    CommitView {
        author: SignatureView { time, ..commit.author },
        committer: SignatureView { time, ..commit.committer },
        ..commit
    }
}

/// The signature of the service at the given time.
pub fn commit_signature(time: Time) -> (signature: Signature)
    ensures
        signature@ == signature_at(time),
{
    Signature {
        name: String::from_str("GitButler"),
        email: String::from_str("gitbutler@gitbutler.com"),
        time,
    }
}

/// One stack of a workspace as the graph presents it.
#[derive(Debug)]
pub struct ProjectedStack {
    /// The name of the top-most branch, if it has one.
    pub ref_name: Option<crate::refname::RefName>,
    /// The first commit of the stack, if it has any.
    pub tip_skip_empty: Option<ObjectId>,
    /// The commit on which the stack rests, if it is known.
    pub base: Option<ObjectId>,
}

impl ProjectedStack {
    /// The commit that stands for the stack: its first commit, else its base.
    pub open spec fn tip(&self) -> Option<ObjectId> {
        match self.tip_skip_empty {
            Some(tip) => Some(tip),
            None => self.base,
        }
    }

    /// The stack as a workspace commit records it.
    pub open spec fn as_stack(&self) -> StackView {
        StackView {
            tip: self.tip()->0,
            name: match self.ref_name {
                Some(name) => Some(crate::refname::short_name(name@)),
                None => None,
            },
        }
    }
}

/// The stacks of a workspace as a workspace commit records them.
pub open spec fn projected_views(stacks: Seq<ProjectedStack>) -> Seq<StackView> {
    Seq::new(stacks.len(), |i: int| stacks[i].as_stack())
}

/// Why no workspace commit could be made of a workspace.
#[derive(Clone, Copy, Debug, PartialEq, Eq, Structural)]
pub enum ConstructError {
    /// The stack at this position has neither a commit nor a base.
    NoTip { stack: usize },
}

/// A workspace commit with its id.
#[derive(Debug)]
pub struct WorkspaceCommit {
    /// The id of the commit.
    pub id: ObjectId,
    /// The commit itself.
    pub inner: Commit,
}

impl WorkspaceCommit {
    /// Keep a commit, read from the object store under `id`, for later
    /// query.
    pub fn from_id(id: ObjectId, commit: Commit) -> (this: WorkspaceCommit)
        ensures
            this.id == id,
            this.inner == commit,
    {
        WorkspaceCommit { id, inner: commit }
    }

    /// A new commit which presents itself as the merge of all the given
    /// `stacks`. Its tree is the empty one of `object_hash` until the caller
    /// sets another, and both signatures are made at `time`.
    pub fn new_from_stacks(
        stacks: &Vec<Stack>,
        object_hash: HashKind,
        time: Time,
    ) -> (commit: Commit)
        ensures
            commit.tree@ == empty_tree_bytes(),
            commit@ == workspace_commit(stack_views(stacks@), commit.tree, time),
    {
        let message = workspace_message(stacks);
        let mut parents: Vec<ObjectId> = Vec::new();
        let mut i: usize = 0;
        while i < stacks.len()
            invariant
                i <= stacks.len(),
                parents@.len() == i,
                forall|k: int| 0 <= k < i ==> parents@[k] == stacks@[k].tip,
            decreases stacks.len() - i,
        {
            parents.push(stacks[i].tip);
            i += 1;
        }
        let commit = Commit {
            tree: ObjectId::empty_tree(object_hash),
            parents,
            author: commit_signature(time),
            committer: commit_signature(time),
            encoding: Some(String::from_str("UTF-8")),
            message,
            extra_headers: Vec::new(),
        };
        proof {
            let views = stack_views(stacks@);
            assert(commit@.parents =~= Seq::new(views.len(), |i: int| views[i].tip));
            assert(commit@.extra_headers =~= Seq::empty());
        }
        commit
    }

    /// Set the times of both signatures to the committer's configured time,
    /// where the repository has one.
    pub fn fixup_times(commit: &mut Commit, committer_time: Option<Time>)
        ensures
            final(commit)@ == match committer_time {
                Some(time) => with_times(old(commit)@, time),
                None => old(commit)@,
            },
    {
        if let Some(time) = committer_time {
            commit.committer.time = time;
            commit.author.time = time;
        }
    }

    /// The workspace commit of a workspace whose stacks are already merged
    /// into `tree`: the commit to write, or the position of the first stack
    /// for which no commit can serve as tip.
    pub fn from_graph_workspace(
        stacks: &Vec<ProjectedStack>,
        tree: ObjectId,
        object_hash: HashKind,
        time: Time,
        committer_time: Option<Time>,
    ) -> (made: Result<Commit, ConstructError>)
        ensures
            match made {
                Ok(commit) => {
                    &&& forall|i: int| 0 <= i < stacks@.len() ==> stacks@[i].tip() is Some
                    &&& commit@ == workspace_commit(
                        projected_views(stacks@),
                        tree,
                        match committer_time {
                            Some(time) => time,
                            None => time,
                        },
                    )
                },
                Err(ConstructError::NoTip { stack }) => {
                    &&& stack < stacks@.len()
                    &&& stacks@[stack as int].tip() is None
                    &&& forall|i: int| 0 <= i < stack ==> stacks@[i].tip() is Some
                },
            },
    {
        let mut minimal: Vec<Stack> = Vec::new();
        let mut i: usize = 0;
        while i < stacks.len()
            invariant
                i <= stacks.len(),
                forall|k: int| 0 <= k < i ==> stacks@[k].tip() is Some,
                minimal@.len() == i,
                forall|k: int| 0 <= k < i ==> (#[trigger] minimal@[k])@ == stacks@[k].as_stack(),
            decreases stacks.len() - i,
        {
            let stack = &stacks[i];
            let name = match &stack.ref_name {
                Some(name) => Some(name.shorten()),
                None => None,
            };
            let tip = match stack.tip_skip_empty {
                Some(tip) => tip,
                None => match stack.base {
                    Some(base) => base,
                    None => {
                        return Err(ConstructError::NoTip { stack: i });
                    },
                },
            };
            minimal.push(Stack { tip, name });
            i += 1;
        }
        assert(stack_views(minimal@) =~= projected_views(stacks@));
        let mut commit = Self::new_from_stacks(&minimal, object_hash, time);
        commit.tree = tree;
        Self::fixup_times(&mut commit, committer_time);
        Ok(commit)
    }

    /// Whether this commit is a managed workspace commit, which is told by
    /// its message alone.
    pub fn is_managed(&self) -> (managed: bool)
        ensures
            managed == is_managed_message(self.inner.message@),
    {
        is_managed_workspace_by_message(self.inner.message.as_str())
    }
}

/// Whether a message is that of a managed workspace commit.
pub fn is_managed_workspace_by_message(message: &str) -> (managed: bool)
    ensures
        managed == is_managed_message(message@),
{
    let title = "GitButler Workspace Commit";
    proof {
        reveal_strlit("GitButler Workspace Commit");
    }
    let len = message.unicode_len();
    if len < 26 {
        return false;
    }
    let head = String::from_str(message.substring_char(0, 26));
    if head != String::from_str(title) {
        return false;
    }
    len == 26 || message.get_char(26) == '\n'
}

/// A message that the constructor wrote is always recognised.
pub proof fn lemma_constructed_is_managed(stacks: Seq<StackView>, tree: ObjectId, time: Time)
    ensures
        is_managed_message(workspace_commit(stacks, tree, time).message),
{
    lemma_message_is_managed(entries_of(stacks));
}

/// The message over any stacks is that of a managed workspace commit.
pub proof fn lemma_message_is_managed(entries: Seq<Entry>)
    ensures
        is_managed_message(message_text(entries)),
{
    reveal_strlit("GitButler Workspace Commit");
    reveal_strlit("\n\n");
    let message = message_text(entries);
    let rest = "\n\n"@ + body_text(entries);
    assert(message =~= title() + rest);
    assert(message.subrange(0, title().len() as int) =~= title());
    assert(message[title().len() as int] == rest[0]);
}

/// A message whose first line is not the title is never recognised: one that
/// is shorter than the title, that differs from it in some place, or that
/// goes on after it on the same line.
pub proof fn lemma_other_message_is_not_managed(message: Seq<char>)
    requires
        message.len() < title().len() || (exists|i: int|
            0 <= i < title().len() && message[i] != title()[i]) || (message.len() > title().len()
            && message[title().len() as int] != '\n'),
    ensures
        !is_managed_message(message),
{
    if message.len() >= title().len() && message.subrange(0, title().len() as int) == title() {
        assert forall|i: int| 0 <= i < title().len() implies message[i] == title()[i] by {
            assert(message.subrange(0, title().len() as int)[i] == message[i]);
        }
    }
}

} // verus!
