//! What the command line decides before it asks the workspace to act: which
//! stack or branch a name means, which commit heads a branch, and how the
//! applied branches are shown.

use crate::id::ObjectId;
use crate::pick::{first_from, lemma_first_from, picked};
use crate::refname::{lossy_text, to_str_lossy};
use vstd::prelude::*;
use vstd::string::*;

verus! {

/// Whether two byte strings are the same.
pub fn same_bytes(one: &[u8], other: &[u8]) -> (same: bool)
    ensures
        same == (one@ == other@),
{
    if one.len() != other.len() {
        return false;
    }
    let mut i: usize = 0;
    while i < one.len()
        invariant
            i <= one@.len() == other@.len(),
            forall|k: int| 0 <= k < i ==> one@[k] == other@[k],
        decreases one@.len() - i,
    {
        if one[i] != other[i] {
            return false;
        }
        i += 1;
    }
    assert(one@ =~= other@);
    true
}

/// The id of a stack, as it is written.
#[derive(Debug)]
pub struct StackId(pub String);

impl View for StackId {
    type V = Seq<char>;

    open spec fn view(&self) -> Seq<char> {
        self.0@
    }
}

/// What is known of one branch of a stack.
#[derive(Debug)]
pub struct BranchDetails {
    /// The name of the branch.
    pub name: Vec<u8>,
    /// The commits of the branch, the newest first.
    pub commits: Vec<ObjectId>,
    /// The commits that only the remote has, the newest first.
    pub upstream_commits: Vec<ObjectId>,
}

/// Whether one of the commits is the given one.
pub open spec fn among(commits: Seq<ObjectId>, commit: ObjectId) -> bool {
    exists|k: int| 0 <= k < commits.len() && (#[trigger] commits[k])@ == commit@
}

impl BranchDetails {
    /// Whether the branch holds the commit, among its own commits or among
    /// those of its remote.
    pub open spec fn holds(&self, commit: ObjectId) -> bool {
        among(self.commits@, commit) || among(self.upstream_commits@, commit)
    }
}

/// What is known of one stack: its branches, the top-most first.
#[derive(Debug)]
pub struct StackDetails {
    pub branch_details: Vec<BranchDetails>,
}

impl StackDetails {
    /// The position of the first branch of the given name, or the number of
    /// branches if there is none.
    pub open spec fn branch_named(&self, name: Seq<u8>) -> int {
        first_from(
            self.branch_details@.len() as int,
            0,
            |i: int| self.branch_details@[i].name@ == name,
        )
    }

    /// Whether the stack has a branch of the given name.
    pub open spec fn has_branch(&self, name: Seq<u8>) -> bool {
        self.branch_named(name) < self.branch_details@.len()
    }

    /// Whether some branch of the stack holds the commit, among its own
    /// commits or among those of its remote.
    pub open spec fn contains_commit(&self, commit: ObjectId) -> bool {
        exists|i: int|
            0 <= i < self.branch_details@.len() && (#[trigger] self.branch_details@[i]).holds(
                commit,
            )
    }

    /// The position of the first branch of the given name, if there is one.
    pub fn find_branch(&self, name: &str) -> (found: Option<usize>)
        ensures
            match found {
                Some(at) => at == self.branch_named(name.spec_bytes()) && at
                    < self.branch_details@.len(),
                None => !self.has_branch(name.spec_bytes()),
            },
    {
        let ghost holds = |i: int| self.branch_details@[i].name@ == name.spec_bytes();
        let mut at: usize = 0;
        while at < self.branch_details.len()
            invariant
                at <= self.branch_details@.len(),
                holds == |i: int| self.branch_details@[i].name@ == name.spec_bytes(),
                first_from(self.branch_details@.len() as int, at as int, holds) == first_from(
                    self.branch_details@.len() as int,
                    0,
                    holds,
                ),
            decreases self.branch_details@.len() - at,
        {
            if same_bytes(self.branch_details[at].name.as_slice(), name.as_bytes()) {
                return Some(at);
            }
            at += 1;
        }
        None
    }
}

/// What the search for the head of a branch in a stack has found.
#[derive(Clone, Copy, Debug, PartialEq, Eq)]
pub enum BranchHead {
    /// The stack has no branch of that name.
    NotInStack,
    /// The branch has no commits, neither its own nor of its remote.
    NoCommits,
    /// The head of the branch.
    Head(ObjectId),
}

/// The head commit of the branch named `name` in a stack: the newest of its
/// own commits, else the newest of its remote.
pub open spec fn branch_head(details: StackDetails, name: Seq<u8>) -> BranchHead {
    let at = details.branch_named(name);
    if at >= details.branch_details@.len() {
        BranchHead::NotInStack
    } else {
        let branch = details.branch_details@[at];
        if branch.commits@.len() > 0 {
            BranchHead::Head(branch.commits@[0])
        } else if branch.upstream_commits@.len() > 0 {
            BranchHead::Head(branch.upstream_commits@[0])
        } else {
            BranchHead::NoCommits
        }
    }
}

/// Find the head commit of the branch named `branch_name` in a stack.
pub fn find_branch_head_commit(details: &StackDetails, branch_name: &str) -> (head: BranchHead)
    ensures
        head == branch_head(*details, branch_name.spec_bytes()),
{
    match details.find_branch(branch_name) {
        None => BranchHead::NotInStack,
        Some(at) => {
            let branch = &details.branch_details[at];
            if branch.commits.len() > 0 {
                BranchHead::Head(branch.commits[0])
            } else if branch.upstream_commits.len() > 0 {
                BranchHead::Head(branch.upstream_commits[0])
            } else {
                BranchHead::NoCommits
            }
        },
    }
}

/// Whether one of the commits is the given one.
fn holds_commit(commits: &Vec<ObjectId>, commit: &ObjectId) -> (found: bool)
    ensures
        found == among(commits@, *commit),
{
    let mut k: usize = 0;
    while k < commits.len()
        invariant
            k <= commits@.len(),
            forall|j: int| 0 <= j < k ==> (#[trigger] commits@[j])@ != commit@,
        decreases commits@.len() - k,
    {
        if commits[k].same(commit) {
            return true;
        }
        k += 1;
    }
    false
}

/// Whether a stack contains a commit in any of its branches.
pub fn find_stack_containing_commit(details: &StackDetails, commit: &ObjectId) -> (found: bool)
    ensures
        found == details.contains_commit(*commit),
{
    let mut i: usize = 0;
    while i < details.branch_details.len()
        invariant
            i <= details.branch_details@.len(),
            forall|j: int| 0 <= j < i ==> !(#[trigger] details.branch_details@[j]).holds(*commit),
        decreases details.branch_details@.len() - i,
    {
        let branch = &details.branch_details[i];
        if holds_commit(&branch.commits, commit) || holds_commit(&branch.upstream_commits, commit) {
            return true;
        }
        i += 1;
    }
    false
}

/// The position of the first stack with a branch of the given name, or the
/// number of stacks if there is none.
pub open spec fn stack_with_branch(stacks: Seq<StackDetails>, name: Seq<u8>) -> int {
    first_from(stacks.len() as int, 0, |i: int| stacks[i].has_branch(name))
}

/// Find the first stack that has a branch named `hint`.
pub fn find_stack_by_hint(stacks: &Vec<StackDetails>, hint: &str) -> (found: Option<usize>)
    ensures
        match found {
            Some(at) => at == stack_with_branch(stacks@, hint.spec_bytes()) && at < stacks@.len(),
            None => stack_with_branch(stacks@, hint.spec_bytes()) == stacks@.len(),
        },
{
    let ghost holds = |i: int| stacks@[i].has_branch(hint.spec_bytes());
    let mut at: usize = 0;
    while at < stacks.len()
        invariant
            at <= stacks@.len(),
            holds == |i: int| stacks@[i].has_branch(hint.spec_bytes()),
            first_from(stacks@.len() as int, at as int, holds) == first_from(
                stacks@.len() as int,
                0,
                holds,
            ),
        decreases stacks@.len() - at,
    {
        if stacks[at].find_branch(hint).is_some() {
            return Some(at);
        }
        at += 1;
    }
    None
}

/// What to commit to.
#[derive(Clone, Copy, Debug, PartialEq, Eq, Structural)]
pub enum StackChoice {
    /// There are no stacks, and none is to be created: give up.
    NoStacks,
    /// Create a branch of the name that was given.
    CreateNamed,
    /// Create a branch of a name made up for it.
    CreateCanned,
    /// Take the stack that the name stands for.
    Found,
    /// The name stands for no stack, and none is to be created: give up.
    NotFound,
    /// Ask which stack is meant.
    Prompt,
}

/// Decide what to commit to. Without stacks, one is created if that is
/// wanted. A name picks the stack that has it, else a new one if that is
/// wanted. Without a name a new one is created if wanted, else the user is
/// asked.
pub fn select_stack(
    no_stacks: bool,
    has_hint: bool,
    hint_found: bool,
    create_branch: bool,
) -> (choice: StackChoice)
    ensures
        choice == if no_stacks {
            if !create_branch {
                StackChoice::NoStacks
            } else if has_hint {
                StackChoice::CreateNamed
            } else {
                StackChoice::CreateCanned
            }
        } else if has_hint {
            if hint_found {
                StackChoice::Found
            } else if create_branch {
                StackChoice::CreateNamed
            } else {
                StackChoice::NotFound
            }
        } else if create_branch {
            StackChoice::CreateCanned
        } else {
            StackChoice::Prompt
        },
{
    if no_stacks {
        if !create_branch {
            return StackChoice::NoStacks;
        }
        return if has_hint {
            StackChoice::CreateNamed
        } else {
            StackChoice::CreateCanned
        };
    }
    match (has_hint, hint_found, create_branch) {
        (true, true, _) => StackChoice::Found,
        (true, false, true) => StackChoice::CreateNamed,
        (true, false, false) => StackChoice::NotFound,
        (false, _, true) => StackChoice::CreateCanned,
        (false, _, false) => StackChoice::Prompt,
    }
}

/// The position of the stack that the user chose by its number in a list
/// that counts from one, if there is such a stack.
pub fn selected_stack(selection: usize, stacks: usize) -> (at: Option<usize>)
    ensures
        at == if 1 <= selection <= stacks {
            Some((selection - 1) as usize)
        } else {
            None::<usize>
        },
{
    if 1 <= selection && selection <= stacks {
        Some(selection - 1)
    } else {
        None
    }
}

/// How a file has changed.
#[derive(Clone, Copy, Debug, PartialEq, Eq, Structural)]
pub enum TreeStatus {
    Addition,
    Modification,
    Deletion,
    Rename,
}

/// The change of one file.
#[derive(Debug)]
pub struct TreeChange {
    /// The path of the file.
    pub path_bytes: Vec<u8>,
    pub status: TreeStatus,
}

/// The word for a kind of change.
pub open spec fn status_word(status: TreeStatus) -> Seq<char> {
    match status {
        TreeStatus::Addition => "new file:"@,
        TreeStatus::Modification => "modified:"@,
        TreeStatus::Deletion => "deleted:"@,
        TreeStatus::Rename => "renamed:"@,
    }
}

/// The word for the change of the file at `path`: that of the first change
/// with this path, or that of a modification if there is none.
pub open spec fn status_of(path: Seq<u8>, changes: Seq<TreeChange>) -> Seq<char> {
    let at = first_from(changes.len() as int, 0, |i: int| changes[i].path_bytes@ == path);
    if at < changes.len() {
        status_word(changes[at].status)
    } else {
        "modified:"@
    }
}

/// The word that tells how the file at `path` has changed.
pub fn get_status_char(path: &Vec<u8>, changes: &Vec<TreeChange>) -> (word: &'static str)
    ensures
        word@ == status_of(path@, changes@),
{
    let ghost holds = |i: int| changes@[i].path_bytes@ == path@;
    let mut at: usize = 0;
    while at < changes.len()
        invariant
            at <= changes@.len(),
            holds == |i: int| changes@[i].path_bytes@ == path@,
            first_from(changes@.len() as int, at as int, holds) == first_from(
                changes@.len() as int,
                0,
                holds,
            ),
        decreases changes@.len() - at,
    {
        let change = &changes[at];
        if same_bytes(change.path_bytes.as_slice(), path.as_slice()) {
            return match change.status {
                TreeStatus::Addition => "new file:",
                TreeStatus::Modification => "modified:",
                TreeStatus::Deletion => "deleted:",
                TreeStatus::Rename => "renamed:",
            };
        }
        at += 1;
    }
    "modified:"
}

/// The mark before the name of an applied branch: one for a branch that is
/// alone in its stack, else one for a branch named like the first of the
/// stack, one for a branch named like the last, and one for those between.
pub open spec fn branch_mark(heads: Seq<Vec<u8>>, at: int) -> Seq<char> {
    if heads.len() == 1 {
        "* "@
    } else if heads[at]@ == heads[0]@ {
        "*- "@
    } else if heads[at]@ == heads[heads.len() - 1]@ {
        "└─ "@
    } else {
        "├─ "@
    }
}

/// The mark before the name of the branch at `at` among the heads of an
/// applied stack.
pub fn applied_branch_mark(heads: &Vec<Vec<u8>>, at: usize) -> (mark: &'static str)
    requires
        at < heads@.len(),
    ensures
        mark@ == branch_mark(heads@, at as int),
{
    if heads.len() == 1 {
        "* "
    } else if same_bytes(heads[at].as_slice(), heads[0].as_slice()) {
        "*- "
    } else if same_bytes(heads[at].as_slice(), heads[heads.len() - 1].as_slice()) {
        "└─ "
    } else {
        "├─ "
    }
}

/// A stack that is applied to the workspace.
#[derive(Debug)]
pub struct AppliedStack {
    /// The id of the stack, if it has one.
    pub id: Option<StackId>,
    /// The names of its heads, the top-most first.
    pub heads: Vec<Vec<u8>>,
}

/// What the list of all branches knows of one branch.
#[derive(Debug)]
pub struct BranchListing {
    /// Whether the branch exists locally.
    pub has_local: bool,
    /// The stack that the branch belongs to, if any.
    pub stack: Option<StackId>,
}

/// One line of the list of branches, which names its branch by position.
#[derive(Clone, Copy, Debug, PartialEq, Eq, Structural)]
pub enum ListLine {
    /// A head of an applied stack.
    Applied { stack: usize, head: usize },
    /// A local branch outside the applied stacks.
    Local { branch: usize },
    /// A branch that only a remote has.
    Remote { branch: usize },
}

/// Whether a stack is one of the applied ones.
pub open spec fn is_applied(stack: Option<StackId>, applied: Seq<AppliedStack>) -> bool {
    stack is Some && exists|i: int|
        0 <= i < applied.len() && (#[trigger] applied[i]).id is Some && applied[i].id->0@
            == stack->0@
}

/// The lines for the heads of the first `n` applied stacks: stack by stack,
/// and in each stack head by head.
pub open spec fn applied_lines(applied: Seq<AppliedStack>, n: int) -> Seq<ListLine>
    decreases n,
{
    if n <= 0 {
        Seq::empty()
    } else {
        applied_lines(applied, n - 1) + Seq::new(
            applied[n - 1].heads@.len(),
            |head: int| ListLine::Applied { stack: (n - 1) as usize, head: head as usize },
        )
    }
}

/// The lines for the local branches that no applied stack shows already, in
/// order.
pub open spec fn local_lines(
    applied: Seq<AppliedStack>,
    branches: Seq<BranchListing>,
) -> Seq<ListLine> {
    let local = picked(
        branches.len() as int,
        |i: int| branches[i].has_local && !is_applied(branches[i].stack, applied),
    );
    Seq::new(local.len(), |k: int| ListLine::Local { branch: local[k] as usize })
}

/// The lines for the branches that only a remote has, in order.
pub open spec fn remote_lines(branches: Seq<BranchListing>) -> Seq<ListLine> {
    let remote = picked(branches.len() as int, |i: int| !branches[i].has_local);
    Seq::new(remote.len(), |k: int| ListLine::Remote { branch: remote[k] as usize })
}

/// Whether a branch is shown with the applied stacks already: it belongs to
/// a stack, and that stack is one of the applied ones.
pub fn in_applied_stack(stack: Option<&StackId>, applied: &Vec<AppliedStack>) -> (shown: bool)
    ensures
        shown == is_applied(
            match stack {
                Some(id) => Some(*id),
                None => None,
            },
            applied@,
        ),
{
    let id = match stack {
        Some(id) => id,
        None => {
            return false;
        },
    };
    let mut i: usize = 0;
    while i < applied.len()
        invariant
            i <= applied@.len(),
            stack == Some(id),
            forall|j: int|
                0 <= j < i ==> !((#[trigger] applied@[j]).id is Some && applied@[j].id->0@ == id@),
        decreases applied@.len() - i,
    {
        if let Some(other) = &applied[i].id {
            if other.0 == id.0 {
                return true;
            }
        }
        i += 1;
    }
    false
}

/// The list of branches: first the heads of the applied stacks, then the
/// local branches that are not shown with them, then the branches that only
/// a remote has.
pub fn list(applied: &Vec<AppliedStack>, branches: &Vec<BranchListing>) -> (lines: Vec<ListLine>)
    ensures
        lines@ == applied_lines(applied@, applied@.len() as int) + local_lines(
            applied@,
            branches@,
        ) + remote_lines(branches@),
{
    let mut lines: Vec<ListLine> = Vec::new();
    let mut stack: usize = 0;
    while stack < applied.len()
        invariant
            stack <= applied@.len(),
            lines@ == applied_lines(applied@, stack as int),
        decreases applied@.len() - stack,
    {
        let ghost before = lines@;
        let heads = &applied[stack].heads;
        let mut head: usize = 0;
        while head < heads.len()
            invariant
                head <= heads@.len(),
                stack < applied@.len(),
                heads@ == applied@[stack as int].heads@,
                lines@ == before + Seq::new(
                    head as nat,
                    |h: int| ListLine::Applied { stack, head: h as usize },
                ),
            decreases heads@.len() - head,
        {
            lines.push(ListLine::Applied { stack, head });
            head += 1;
        }
        stack += 1;
    }
    let ghost shown = lines@;
    let ghost is_local = |i: int| branches@[i].has_local && !is_applied(branches@[i].stack, applied@);
    let mut i: usize = 0;
    while i < branches.len()
        invariant
            i <= branches@.len(),
            is_local == |i: int|
                branches@[i].has_local && !is_applied(branches@[i].stack, applied@),
            lines@ == shown + Seq::new(
                picked(i as int, is_local).len(),
                |k: int| ListLine::Local { branch: picked(i as int, is_local)[k] as usize },
            ),
        decreases branches@.len() - i,
    {
        let branch = &branches[i];
        if branch.has_local && !in_applied_stack(branch.stack.as_ref(), applied) {
            lines.push(ListLine::Local { branch: i });
        }
        i += 1;
    }
    let ghost local = lines@;
    let ghost is_remote = |i: int| !branches@[i].has_local;
    let mut i: usize = 0;
    while i < branches.len()
        invariant
            i <= branches@.len(),
            is_remote == |i: int| !branches@[i].has_local,
            lines@ == local + Seq::new(
                picked(i as int, is_remote).len(),
                |k: int| ListLine::Remote { branch: picked(i as int, is_remote)[k] as usize },
            ),
        decreases branches@.len() - i,
    {
        if !branches[i].has_local {
            lines.push(ListLine::Remote { branch: i });
        }
        i += 1;
    }
    lines
}

/// The line of the commit message template for one file.
pub open spec fn template_line(status: Seq<char>, path: Seq<char>) -> Seq<char> {
    "#\t"@ + status + "  "@ + path + "\n"@
}

/// The lines of the commit message template for the given files, in order.
pub open spec fn template_lines(paths: Seq<Vec<u8>>, changes: Seq<TreeChange>) -> Seq<char>
    decreases paths.len(),
{
    if paths.len() == 0 {
        Seq::<char>::empty()
    } else {
        template_lines(paths.drop_last(), changes) + template_line(
            status_of(paths.last()@, changes),
            lossy_text(paths.last()@),
        )
    }
}

/// The text that the editor opens with: an empty line for the message,
/// then, as comments, what to do and which files are to be committed.
pub open spec fn template_text(paths: Seq<Vec<u8>>, changes: Seq<TreeChange>) -> Seq<char> {
    "\n# Please enter the commit message for your changes. Lines starting\n"@
        + "# with '#' will be ignored, and an empty message aborts the commit.\n"@ + "#\n"@
        + "# Changes to be committed:\n"@ + template_lines(paths, changes) + "#\n"@
}

/// The line of the commit message template that names one file and says
/// how it has changed.
pub fn commit_template_line(status: &str, path: &str) -> (line: String)
    ensures
        line@ == template_line(status@, path@),
{
    let mut line = String::from_str("#\t");
    line.append(status);
    line.append("  ");
    line.append(path);
    line.append("\n");
    line
}

/// The text that the editor opens with when the user is to write the
/// message of a commit of the given files.
pub fn commit_message_template(
    paths: &Vec<Vec<u8>>,
    changes: &Vec<TreeChange>,
) -> (template: String)
    ensures
        template@ == template_text(paths@, changes@),
{
    let mut template = String::new();
    template.append("\n# Please enter the commit message for your changes. Lines starting\n");
    template.append("# with '#' will be ignored, and an empty message aborts the commit.\n");
    template.append("#\n");
    template.append("# Changes to be committed:\n");
    let ghost head = template@;
    let mut i: usize = 0;
    assert(paths@.take(0) =~= Seq::<Vec<u8>>::empty());
    while i < paths.len()
        invariant
            i <= paths@.len(),
            template@ == head + template_lines(paths@.take(i as int), changes@),
        decreases paths@.len() - i,
    {
        let status = get_status_char(&paths[i], changes);
        let path = to_str_lossy(&paths[i]);
        let line = commit_template_line(status, path.as_str());
        proof {
            assert(paths@.take(i + 1).drop_last() =~= paths@.take(i as int));
            assert(paths@.take(i + 1).last() == paths@[i as int]);
        }
        template.append(line.as_str());
        i += 1;
    }
    assert(paths@.take(paths@.len() as int) =~= paths@);
    template.append("#\n");
    assert(template@ =~= template_text(paths@, changes@));
    template
}

/// What a name on the command line stands for.
#[derive(Debug)]
pub enum CliTarget {
    /// A commit.
    Commit(ObjectId),
    /// A branch, by its name.
    Branch(String),
    /// Anything else.
    Other,
}

/// Where a blank commit is to go.
#[derive(Clone, Copy, Debug, PartialEq, Eq)]
pub enum Insertion {
    /// Before the given commit.
    Before { commit: ObjectId, offset: i32 },
    /// On top of the stack of the branch that the target names; its head is
    /// still to be found.
    OnTop { offset: i32 },
}

/// Why no blank commit can be inserted.
#[derive(Clone, Copy, Debug, PartialEq, Eq, Structural)]
pub enum InsertionError {
    /// The name stands for nothing.
    NotFound,
    /// The name stands for this many things.
    Ambiguous { matches: usize },
    /// The name stands for something that is neither a commit nor a branch.
    WrongKind,
}

/// Where a blank commit goes for what the target name stands for. The name
/// must stand for one thing: before a commit, with offset 0, or on top of
/// the stack of a branch, with offset -1.
pub fn insert_blank_commit(targets: &Vec<CliTarget>) -> (place: Result<Insertion, InsertionError>)
    ensures
        place == if targets@.len() == 0 {
            Err::<Insertion, InsertionError>(InsertionError::NotFound)
        } else if targets@.len() > 1 {
            Err(InsertionError::Ambiguous { matches: targets@.len() as usize })
        } else {
            match targets@[0] {
                CliTarget::Commit(commit) => Ok(Insertion::Before { commit, offset: 0i32 }),
                CliTarget::Branch(_) => Ok(Insertion::OnTop { offset: -1i32 }),
                CliTarget::Other => Err(InsertionError::WrongKind),
            }
        },
{
    if targets.len() == 0 {
        return Err(InsertionError::NotFound);
    }
    if targets.len() > 1 {
        return Err(InsertionError::Ambiguous { matches: targets.len() });
    }
    match &targets[0] {
        CliTarget::Commit(commit) => Ok(Insertion::Before { commit: *commit, offset: 0 }),
        CliTarget::Branch(_) => Ok(Insertion::OnTop { offset: -1 }),
        CliTarget::Other => Err(InsertionError::WrongKind),
    }
}

/// The characters of a text.
fn chars_of(text: &str) -> (chars: Vec<char>)
    ensures
        chars@ == text@,
{
    let mut chars: Vec<char> = Vec::new();
    for c in it: text.chars()
        invariant
            chars@ == it.seq().take(it.index() as int),
            it.seq() == text@,
    {
        chars.push(c);
    }
    chars
}

/// The end of the line that begins at `from`: the position of the next
/// line feed, or the end of the text.
pub open spec fn line_end(text: Seq<char>, from: int) -> int {
    first_from(text.len() as int, from, |i: int| text[i] == '\n')
}

/// Where the content of the line that begins at `from` stops: before its
/// line feed, and before the carriage return that precedes the line feed if
/// there is one.
pub open spec fn line_stop(text: Seq<char>, from: int) -> int {
    let end = line_end(text, from);
    if from < end < text.len() && text[end - 1] == '\r' {
        end - 1
    } else {
        end
    }
}

/// The lines of a text from `from` on, without their line endings. A line
/// ends with a line feed, which a carriage return may precede; the last line
/// needs no ending.
pub open spec fn lines_from(text: Seq<char>, from: int) -> Seq<Seq<char>>
    decreases text.len() - from,
{
    let end = line_end(text, from);
    if from < 0 || from >= text.len() {
        Seq::empty()
    } else if from <= end < text.len() {
        seq![text.subrange(from, line_stop(text, from))] + lines_from(text, end + 1)
    } else {
        seq![text.subrange(from, line_stop(text, from))]
    }
}

/// Whether a line is a comment: it begins with `#`.
pub open spec fn is_comment(line: Seq<char>) -> bool {
    line.len() > 0 && line[0] == '#'
}

/// The lines that are no comments, in order.
pub open spec fn without_comments(lines: Seq<Seq<char>>) -> Seq<Seq<char>>
    decreases lines.len(),
{
    if lines.len() == 0 {
        Seq::empty()
    } else if is_comment(lines[0]) {
        without_comments(lines.drop_first())
    } else {
        seq![lines[0]] + without_comments(lines.drop_first())
    }
}

/// The lines as one text, with a line feed between each two.
pub open spec fn joined(lines: Seq<Seq<char>>) -> Seq<char>
    decreases lines.len(),
{
    if lines.len() == 0 {
        Seq::empty()
    } else if lines.len() == 1 {
        lines[0]
    } else {
        lines[0] + seq!['\n'] + joined(lines.drop_first())
    }
}

/// Whether a character is white space.
pub open spec fn is_space(c: char) -> bool {
    let code = c as u32;
    ||| 0x09 <= code <= 0x0d
    ||| code == 0x20
    ||| code == 0x85
    ||| code == 0xa0
    ||| code == 0x1680
    ||| 0x2000 <= code <= 0x200a
    ||| code == 0x2028
    ||| code == 0x2029
    ||| code == 0x202f
    ||| code == 0x205f
    ||| code == 0x3000
}

/// The number of white space characters that a text begins with.
pub open spec fn leading_space(text: Seq<char>) -> int
    decreases text.len(),
{
    if text.len() == 0 || !is_space(text[0]) {
        0
    } else {
        1 + leading_space(text.drop_first())
    }
}

/// The number of white space characters that a text ends with.
pub open spec fn trailing_space(text: Seq<char>) -> int
    decreases text.len(),
{
    if text.len() == 0 || !is_space(text.last()) {
        0
    } else {
        1 + trailing_space(text.drop_last())
    }
}

/// A text without the white space at its beginning and at its end.
pub open spec fn trimmed(text: Seq<char>) -> Seq<char> {
    if leading_space(text) >= text.len() {
        Seq::empty()
    } else {
        text.subrange(leading_space(text), text.len() - trailing_space(text))
    }
}

/// What the user wrote in the editor: the lines that are no comments,
/// without the white space around them.
pub open spec fn written_message(content: Seq<char>) -> Seq<char> {
    trimmed(joined(without_comments(lines_from(content, 0))))
}

/// Whether a character is white space.
pub fn is_whitespace(c: char) -> (space: bool)
    ensures
        space == is_space(c),
{
    let code = c as u32;
    (0x09 <= code && code <= 0x0d) || code == 0x20 || code == 0x85 || code == 0xa0 || code
        == 0x1680 || (0x2000 <= code && code <= 0x200a) || code == 0x2028 || code == 0x2029
        || code == 0x202f || code == 0x205f || code == 0x3000
}

/// A text without the white space at its beginning and at its end.
pub fn trim(text: &str) -> (out: String)
    ensures
        out@ == trimmed(text@),
{
    let chars = chars_of(text);
    let mut start: usize = 0;
    assert(chars@.skip(0) =~= chars@);
    while start < chars.len() && is_whitespace(chars[start])
        invariant
            start <= chars@.len(),
            leading_space(chars@) == start + leading_space(chars@.skip(start as int)),
        decreases chars@.len() - start,
    {
        proof {
            assert(chars@.skip(start as int).drop_first() =~= chars@.skip(start + 1));
        }
        start += 1;
    }
    assert(leading_space(chars@) == start) by {
        if start < chars@.len() {
            assert(chars@.skip(start as int)[0] == chars@[start as int]);
        }
    }
    if start == chars.len() {
        return String::new();
    }
    let mut stop: usize = chars.len();
    assert(chars@.take(chars@.len() as int) =~= chars@);
    while is_whitespace(chars[stop - 1])
        invariant
            start < stop <= chars@.len(),
            start < chars@.len(),
            !is_space(chars@[start as int]),
            trailing_space(chars@) == (chars@.len() - stop) + trailing_space(
                chars@.take(stop as int),
            ),
        decreases stop,
    {
        proof {
            assert(chars@.take(stop as int).drop_last() =~= chars@.take(stop - 1));
        }
        stop -= 1;
    }
    assert(trailing_space(chars@) == chars@.len() - stop) by {
        assert(chars@.take(stop as int).last() == chars@[stop - 1]);
    }
    String::from_str(text.substring_char(start, stop))
}

/// The lines from `from` on are the line that begins there and the lines
/// after its end.
proof fn lemma_lines_from(text: Seq<char>, from: int)
    requires
        0 <= from < text.len(),
    ensures
        from <= line_stop(text, from) <= line_end(text, from) <= text.len(),
        without_comments(lines_from(text, from)) == if is_comment(
            text.subrange(from, line_stop(text, from)),
        ) {
            without_comments(lines_from(text, line_end(text, from) + 1))
        } else {
            seq![text.subrange(from, line_stop(text, from))] + without_comments(
                lines_from(text, line_end(text, from) + 1),
            )
        },
{
    lemma_first_from(text.len() as int, from, |i: int| text[i] == '\n');
    let line = text.subrange(from, line_stop(text, from));
    let rest = lines_from(text, line_end(text, from) + 1);
    let lines = lines_from(text, from);
    assert(lines == seq![line] + rest);
    assert(lines[0] == line);
    assert(lines.drop_first() =~= rest);
}

/// Joining a line and more lines puts a line feed between them.
proof fn lemma_joined(line: Seq<char>, rest: Seq<Seq<char>>)
    ensures
        joined(seq![line] + rest) == if rest.len() == 0 {
            line
        } else {
            line + seq!['\n'] + joined(rest)
        },
{
    let lines = seq![line] + rest;
    assert(lines[0] == line);
    assert(lines.drop_first() =~= rest);
}

/// The whole of the joined lines, of which `kept` is collected already and
/// `rest` is still to come. Nothing is collected while `first` holds.
pub open spec fn collected(kept: Seq<char>, first: bool, rest: Seq<Seq<char>>) -> Seq<char> {
    if first {
        joined(rest)
    } else if rest.len() == 0 {
        kept
    } else {
        kept + seq!['\n'] + joined(rest)
    }
}

/// Where the line after the one that begins at `from` begins.
pub open spec fn next_line(text: Seq<char>, from: int) -> int {
    if line_end(text, from) >= text.len() {
        text.len() as int
    } else {
        line_end(text, from) + 1
    }
}

/// Collecting the line that begins at `from` leaves the whole as it is: a
/// comment is passed over, another line is added to what is kept, after a
/// line feed if it is not the first.
proof fn lemma_collect(text: Seq<char>, from: int, kept: Seq<char>, first: bool)
    requires
        0 <= from < text.len(),
        first ==> kept.len() == 0,
    ensures
        from <= line_stop(text, from) <= line_end(text, from) <= text.len(),
        from < next_line(text, from) <= text.len(),
        collected(kept, first, without_comments(lines_from(text, from))) == ({
            let line = text.subrange(from, line_stop(text, from));
            let rest = without_comments(lines_from(text, next_line(text, from)));
            if is_comment(line) {
                collected(kept, first, rest)
            } else if first {
                collected(line, false, rest)
            } else {
                collected(kept + seq!['\n'] + line, false, rest)
            }
        }),
{
    lemma_lines_from(text, from);
    let end = line_end(text, from);
    let line = text.subrange(from, line_stop(text, from));
    let after = without_comments(lines_from(text, end + 1));
    let rest = without_comments(lines_from(text, next_line(text, from)));
    assert(rest == after) by {
        if end >= text.len() {
            assert(lines_from(text, end + 1) =~= lines_from(text, text.len() as int));
        }
    }
    lemma_joined(line, rest);
    if !is_comment(line) && !first && rest.len() > 0 {
        assert(kept + seq!['\n'] + (line + seq!['\n'] + joined(rest)) =~= kept + seq!['\n'] + line
            + seq!['\n'] + joined(rest));
    }
}

/// The end of the line that begins at `from`.
fn find_line_end(chars: &Vec<char>, from: usize) -> (end: usize)
    requires
        from <= chars@.len(),
    ensures
        end == line_end(chars@, from as int),
        from <= end <= chars@.len(),
{
    let ghost is_feed = |i: int| chars@[i] == '\n';
    let mut end: usize = from;
    while end < chars.len() && chars[end] != '\n'
        invariant
            from <= end <= chars@.len(),
            is_feed == |i: int| chars@[i] == '\n',
            first_from(chars@.len() as int, end as int, is_feed) == first_from(
                chars@.len() as int,
                from as int,
                is_feed,
            ),
        decreases chars@.len() - end,
    {
        end += 1;
    }
    end
}

/// What is left of the text of an editor once the comments are gone: the
/// lines that do not begin with `#`, joined by line feeds, without the white
/// space around the whole.
pub fn strip_comments(content: &str) -> (message: String)
    ensures
        message@ == written_message(content@),
{
    let chars = chars_of(content);
    let ghost text = content@;
    let ghost whole = joined(without_comments(lines_from(text, 0)));
    let mut kept = String::new();
    let mut first = true;
    let mut from: usize = 0;
    while from < chars.len()
        invariant
            from <= chars@.len(),
            chars@ == text,
            text == content@,
            first ==> kept@.len() == 0,
            whole == collected(kept@, first, without_comments(lines_from(text, from as int))),
        decreases chars@.len() - from,
    {
        let end = find_line_end(&chars, from);
        let stop = if from < end && end < chars.len() && chars[end - 1] == '\r' {
            end - 1
        } else {
            end
        };
        let comment = from < stop && chars[from] == '#';
        proof {
            lemma_collect(text, from as int, kept@, first);
            assert(stop == line_stop(text, from as int));
            let line = text.subrange(from as int, stop as int);
            if from < stop {
                assert(line[0] == text[from as int]);
            }
            assert(comment == is_comment(line));
        }
        if !comment {
            if !first {
                proof {
                    reveal_strlit("\n");
                    assert("\n"@ =~= seq!['\n']);
                }
                kept.append("\n");
            }
            kept.append(content.substring_char(from, stop));
            first = false;
        }
        if end == chars.len() {
            from = end;
        } else {
            from = end + 1;
        }
    }
    assert(kept@ == whole) by {
        assert(lines_from(text, from as int) =~= Seq::<Seq<char>>::empty());
    }
    trim(kept.as_str())
}

} // verus!
