use workspace_commit::commit::{
    branch_entry, commit_signature, is_managed_workspace_by_message, Commit, ConstructError,
    ProjectedStack, Stack, Time, WorkspaceCommit,
};
use workspace_commit::id::{HashKind, ObjectId};
use workspace_commit::refname::RefName;

fn id(byte: u8) -> ObjectId {
    ObjectId { bytes: [byte; 20] }
}

fn name(full: &str) -> RefName {
    RefName::new(full.as_bytes().to_vec()).expect("a valid reference name")
}

fn epoch() -> Time {
    Time { seconds: 0, offset: 0 }
}

const PREAMBLE: &str = "Due to GitButler managing multiple virtual branches, you cannot switch back and\n\
forth between git branches and virtual branches easily. \n\n\
If you switch to another branch, GitButler will need to be reinitialized.\n\
If you commit on this branch, GitButler will throw it away.\n\n";

const DOCS: &str = "For more information about what we're doing here, check out our docs:\n\
https://docs.gitbutler.com/features/branch-management/integration-branch\n";

#[test]
fn object_id_in_hexadecimal_notation() {
    let mut bytes = [0u8; 20];
    for (at, byte) in bytes.iter_mut().enumerate() {
        *byte = (at as u8) * 13 + 7;
    }
    bytes[0] = 0x00;
    bytes[1] = 0x0f;
    bytes[2] = 0xf0;
    bytes[3] = 0xab;
    bytes[19] = 0xff;
    let hex = ObjectId { bytes }.to_hex();
    assert_eq!(hex.len(), 40);
    assert_eq!(&hex[..8], "000ff0ab");
    assert_eq!(&hex[38..], "ff");
    let expected: String = bytes.iter().map(|byte| format!("{byte:02x}")).collect();
    assert_eq!(hex, expected);
}

#[test]
fn empty_tree_is_the_well_known_one() {
    let empty = ObjectId::empty_tree(HashKind::Sha1);
    assert_eq!(empty.to_hex(), "4b825dc642cb6eb9a060e54bf8d69288fbee4904");
}

#[test]
fn reference_names_are_validated() {
    assert!(RefName::new(b"refs/heads/main".to_vec()).is_some());
    assert!(RefName::new(b"HEAD".to_vec()).is_some());
    assert!(RefName::new(b"".to_vec()).is_none());
    assert!(RefName::new(b"main".to_vec()).is_none());
    assert!(RefName::new(b"refs/heads/a..b".to_vec()).is_none());
    assert!(RefName::new(b"refs/heads/with space".to_vec()).is_none());
    assert!(RefName::new(b"refs/heads/".to_vec()).is_none());
    let main = name("refs/heads/main");
    assert_eq!(main.as_bytes().as_slice(), b"refs/heads/main");
    assert_eq!(main.clone().as_bytes(), main.as_bytes());
    assert!(main.same(&name("refs/heads/main")));
    assert!(!main.same(&name("refs/heads/mail")));
    assert!(!main.same(&name("refs/heads/main2")));
}

#[test]
fn reference_names_are_shortened_by_their_category() {
    assert_eq!(name("refs/heads/main").shorten(), b"main");
    assert_eq!(name("refs/heads/feature/branch").shorten(), b"feature/branch");
    assert_eq!(name("refs/remotes/origin/main").shorten(), b"origin/main");
    assert_eq!(name("refs/tags/v1.0").shorten(), b"v1.0");
    assert_eq!(name("refs/notes/commits").shorten(), b"notes/commits");
    assert_eq!(name("refs/custom/thing").shorten(), b"refs/custom/thing");
    assert_eq!(name("HEAD").shorten(), b"HEAD");
}

#[test]
fn entry_of_a_named_and_of_an_unnamed_stack() {
    assert_eq!(branch_entry(Some("main"), "abc"), " - main\n   branch head: abc\n");
    assert_eq!(branch_entry(None, "abc"), "   branch head: abc\n");
    assert_eq!(branch_entry(Some(""), ""), " - \n   branch head: \n");
}

#[test]
fn message_lists_the_stacks_in_order() {
    let stacks = vec![
        Stack { tip: id(0x11), name: Some(b"main".to_vec()) },
        Stack { tip: id(0x22), name: None },
        Stack { tip: id(0xab), name: Some(b"feature/branch".to_vec()) },
    ];
    let commit = WorkspaceCommit::new_from_stacks(&stacks, HashKind::Sha1, epoch());
    let expected = format!(
        "GitButler Workspace Commit\n\n\
         This is a merge commit of the virtual branches in your workspace.\n\n\
         {PREAMBLE}\
         Here are the branches that are currently applied:\n \
         - main\n   \
         branch head: 1111111111111111111111111111111111111111\n   \
         branch head: 2222222222222222222222222222222222222222\n \
         - feature/branch\n   \
         branch head: abababababababababababababababababababab\n\
         {DOCS}"
    );
    assert_eq!(commit.message, expected);
    assert_eq!(commit.parents, vec![id(0x11), id(0x22), id(0xab)]);
    assert_eq!(commit.tree, ObjectId::empty_tree(HashKind::Sha1));
    assert_eq!(commit.encoding.as_deref(), Some("UTF-8"));
    assert!(commit.extra_headers.is_empty());
    assert_eq!(commit.author.name, "GitButler");
    assert_eq!(commit.author.email, "gitbutler@gitbutler.com");
    assert_eq!(commit.author.time, epoch());
    assert_eq!(commit.committer.name, "GitButler");
    assert_eq!(commit.committer.email, "gitbutler@gitbutler.com");
    assert_eq!(commit.committer.time, epoch());
}

#[test]
fn message_without_stacks_is_that_of_a_placeholder() {
    let commit = WorkspaceCommit::new_from_stacks(&Vec::new(), HashKind::Sha1, epoch());
    let expected = format!(
        "GitButler Workspace Commit\n\n\
         This is placeholder commit and will be replaced by a merge of your virtual branches.\n\n\
         {PREAMBLE}{DOCS}"
    );
    assert_eq!(commit.message, expected);
    assert!(commit.parents.is_empty());
    assert_eq!(commit.tree.to_hex(), "4b825dc642cb6eb9a060e54bf8d69288fbee4904");
}

#[test]
fn name_that_is_not_text_is_shown_with_replacement_characters() {
    let stacks = vec![Stack { tip: id(1), name: Some(b"caf\xff\xc3\xa9".to_vec()) }];
    let commit = WorkspaceCommit::new_from_stacks(&stacks, HashKind::Sha1, epoch());
    assert!(commit.message.contains(" - caf\u{fffd}\u{e9}\n   branch head: 0101"));
}

#[test]
fn constructed_message_is_recognised() {
    let none = WorkspaceCommit::new_from_stacks(&Vec::new(), HashKind::Sha1, epoch());
    assert!(is_managed_workspace_by_message(&none.message));
    assert!(WorkspaceCommit::from_id(id(9), none).is_managed());
    let stacks = vec![Stack { tip: id(1), name: Some(b"\nGitButler".to_vec()) }];
    let some = WorkspaceCommit::new_from_stacks(&stacks, HashKind::Sha1, epoch());
    let commit = WorkspaceCommit::from_id(id(9), some);
    assert_eq!(commit.id, id(9));
    assert!(commit.is_managed());
}

#[test]
fn other_messages_are_not_recognised() {
    assert!(is_managed_workspace_by_message("GitButler Workspace Commit"));
    assert!(is_managed_workspace_by_message("GitButler Workspace Commit\n"));
    assert!(is_managed_workspace_by_message("GitButler Workspace Commit\nmore"));
    assert!(!is_managed_workspace_by_message(""));
    assert!(!is_managed_workspace_by_message("GitButler Workspace Commi"));
    assert!(!is_managed_workspace_by_message("GitButler Workspace Commit and more"));
    assert!(!is_managed_workspace_by_message("GitButler Workspace Commit "));
    assert!(!is_managed_workspace_by_message("gitbutler workspace commit\n"));
    assert!(!is_managed_workspace_by_message("\nGitButler Workspace Commit\n"));
    assert!(!is_managed_workspace_by_message(" GitButler Workspace Commit"));
    assert!(!is_managed_workspace_by_message("Merge branch 'main' into feature"));
    assert!(!is_managed_workspace_by_message("GitButler Workspace Commi\u{e9}\n"));
    assert!(!is_managed_workspace_by_message("\u{e9}itButler Workspace Commit\n"));
}

#[test]
fn signature_is_that_of_the_service() {
    let time = Time { seconds: 1234567890, offset: -3600 };
    let signature = commit_signature(time);
    assert_eq!(signature.name, "GitButler");
    assert_eq!(signature.email, "gitbutler@gitbutler.com");
    assert_eq!(signature.time, time);
}

fn some_commit() -> Commit {
    let stacks = vec![Stack { tip: id(1), name: Some(b"main".to_vec()) }];
    WorkspaceCommit::new_from_stacks(&stacks, HashKind::Sha1, Time { seconds: 5, offset: 60 })
}

#[test]
fn times_are_replaced_by_the_committer_time_if_there_is_one() {
    let mut commit = some_commit();
    WorkspaceCommit::fixup_times(&mut commit, None);
    assert_eq!(commit.author.time, Time { seconds: 5, offset: 60 });
    assert_eq!(commit.committer.time, Time { seconds: 5, offset: 60 });
    let configured = Time { seconds: 77, offset: -120 };
    WorkspaceCommit::fixup_times(&mut commit, Some(configured));
    assert_eq!(commit.author.time, configured);
    assert_eq!(commit.committer.time, configured);
    assert_eq!(commit.author.name, "GitButler");
    assert_eq!(commit.message, some_commit().message);
    assert_eq!(commit.parents, vec![id(1)]);
}

#[test]
fn workspace_of_the_graph_becomes_a_commit_with_the_given_tree() {
    let stacks = vec![
        ProjectedStack {
            ref_name: Some(name("refs/heads/A")),
            tip_skip_empty: Some(id(0xa1)),
            base: Some(id(0xa0)),
        },
        ProjectedStack { ref_name: None, tip_skip_empty: None, base: Some(id(0xb0)) },
        ProjectedStack {
            ref_name: Some(name("refs/remotes/origin/C")),
            tip_skip_empty: Some(id(0xc1)),
            base: None,
        },
    ];
    let configured = Time { seconds: 77, offset: -120 };
    let commit = WorkspaceCommit::from_graph_workspace(
        &stacks,
        id(0x77),
        HashKind::Sha1,
        epoch(),
        Some(configured),
    )
    .unwrap();
    assert_eq!(commit.tree, id(0x77));
    assert_eq!(commit.parents, vec![id(0xa1), id(0xb0), id(0xc1)]);
    assert_eq!(commit.author.time, configured);
    assert_eq!(commit.committer.time, configured);
    let listing = format!(
        "Here are the branches that are currently applied:\n \
         - A\n   branch head: {}\n   branch head: {}\n \
         - origin/C\n   branch head: {}\n",
        "a1".repeat(20),
        "b0".repeat(20),
        "c1".repeat(20)
    );
    assert!(commit.message.contains(&listing));
    assert!(is_managed_workspace_by_message(&commit.message));
    let unchanged =
        WorkspaceCommit::from_graph_workspace(&stacks, id(0x77), HashKind::Sha1, epoch(), None)
            .unwrap();
    assert_eq!(unchanged.committer.time, epoch());
}

#[test]
fn workspace_with_a_stack_without_any_commit_cannot_be_committed() {
    let stacks = vec![
        ProjectedStack { ref_name: None, tip_skip_empty: Some(id(1)), base: None },
        ProjectedStack { ref_name: Some(name("refs/heads/B")), tip_skip_empty: None, base: None },
        ProjectedStack { ref_name: None, tip_skip_empty: None, base: None },
    ];
    let result =
        WorkspaceCommit::from_graph_workspace(&stacks, id(7), HashKind::Sha1, epoch(), None);
    assert_eq!(result.err(), Some(ConstructError::NoTip { stack: 1 }));
}

#[test]
fn workspace_without_stacks_becomes_a_placeholder() {
    let commit =
        WorkspaceCommit::from_graph_workspace(&Vec::new(), id(7), HashKind::Sha1, epoch(), None)
            .unwrap();
    assert_eq!(commit.tree, id(7));
    assert!(commit.parents.is_empty());
    assert!(commit.message.contains("This is placeholder commit"));
}
