use workspace_commit::cli::{
    applied_branch_mark, commit_message_template, commit_template_line, find_branch_head_commit,
    find_stack_by_hint, find_stack_containing_commit, get_status_char, in_applied_stack,
    insert_blank_commit, is_whitespace, list, same_bytes, select_stack, selected_stack,
    strip_comments, trim, AppliedStack, BranchDetails, BranchHead, BranchListing, CliTarget,
    Insertion, InsertionError, ListLine, StackChoice, StackDetails, StackId, TreeChange,
    TreeStatus,
};
use workspace_commit::id::ObjectId;

fn id(byte: u8) -> ObjectId {
    ObjectId { bytes: [byte; 20] }
}

fn branch(name: &str, commits: &[u8], upstream: &[u8]) -> BranchDetails {
    BranchDetails {
        name: name.as_bytes().to_vec(),
        commits: commits.iter().map(|byte| id(*byte)).collect(),
        upstream_commits: upstream.iter().map(|byte| id(*byte)).collect(),
    }
}

fn stack(branches: Vec<BranchDetails>) -> StackDetails {
    StackDetails { branch_details: branches }
}

fn change(path: &str, status: TreeStatus) -> TreeChange {
    TreeChange { path_bytes: path.as_bytes().to_vec(), status }
}

#[test]
fn byte_strings_are_compared_in_full() {
    assert!(same_bytes(b"", b""));
    assert!(same_bytes(b"abc", b"abc"));
    assert!(!same_bytes(b"abc", b"abd"));
    assert!(!same_bytes(b"abc", b"ab"));
    assert!(!same_bytes(b"ab", b"abc"));
    assert!(!same_bytes(b"xbc", b"abc"));
}

#[test]
fn object_ids_are_compared_in_full() {
    let mut other = id(7);
    assert!(id(7).same(&other));
    other.bytes[19] = 8;
    assert!(!id(7).same(&other));
    other = id(7);
    other.bytes[0] = 0;
    assert!(!id(7).same(&other));
}

#[test]
fn short_id_is_seven_digits() {
    let mut bytes = [0u8; 20];
    bytes[0] = 0x12;
    bytes[1] = 0x34;
    bytes[2] = 0xab;
    bytes[3] = 0xcd;
    assert_eq!(ObjectId { bytes }.to_short_hex(), "1234abc");
}

#[test]
fn head_of_a_branch_is_its_newest_commit() {
    let details = stack(vec![
        branch("top", &[3, 2], &[9]),
        branch("middle", &[], &[8, 7]),
        branch("bottom", &[], &[]),
        branch("top", &[1], &[]),
    ]);
    assert_eq!(find_branch_head_commit(&details, "top"), BranchHead::Head(id(3)));
    assert_eq!(find_branch_head_commit(&details, "middle"), BranchHead::Head(id(8)));
    assert_eq!(find_branch_head_commit(&details, "bottom"), BranchHead::NoCommits);
    assert_eq!(find_branch_head_commit(&details, "other"), BranchHead::NotInStack);
    assert_eq!(find_branch_head_commit(&details, "to"), BranchHead::NotInStack);
    assert_eq!(find_branch_head_commit(&stack(vec![]), "top"), BranchHead::NotInStack);
    assert_eq!(details.find_branch("top"), Some(0));
    assert_eq!(details.find_branch("bottom"), Some(2));
    assert_eq!(details.find_branch("nope"), None);
}

#[test]
fn stack_contains_the_commits_of_all_its_branches() {
    let details = stack(vec![branch("top", &[3, 2], &[9]), branch("bottom", &[], &[8, 7])]);
    for held in [3u8, 2, 9, 8, 7] {
        assert!(find_stack_containing_commit(&details, &id(held)));
    }
    assert!(!find_stack_containing_commit(&details, &id(1)));
    assert!(!find_stack_containing_commit(&stack(vec![]), &id(3)));
    assert!(!find_stack_containing_commit(&stack(vec![branch("empty", &[], &[])]), &id(3)));
}

#[test]
fn hint_finds_the_first_stack_with_a_branch_of_that_name() {
    let stacks = vec![
        stack(vec![branch("a", &[1], &[])]),
        stack(vec![branch("b", &[2], &[]), branch("shared", &[3], &[])]),
        stack(vec![branch("shared", &[4], &[])]),
    ];
    assert_eq!(find_stack_by_hint(&stacks, "a"), Some(0));
    assert_eq!(find_stack_by_hint(&stacks, "shared"), Some(1));
    assert_eq!(find_stack_by_hint(&stacks, "b"), Some(1));
    assert_eq!(find_stack_by_hint(&stacks, "c"), None);
    assert_eq!(find_stack_by_hint(&Vec::new(), "a"), None);
}

#[test]
fn what_to_commit_to() {
    // No stacks: create one if that is wanted, under the given name if any.
    for found in [false, true] {
        assert_eq!(select_stack(true, false, found, false), StackChoice::NoStacks);
        assert_eq!(select_stack(true, true, found, false), StackChoice::NoStacks);
        assert_eq!(select_stack(true, true, found, true), StackChoice::CreateNamed);
        assert_eq!(select_stack(true, false, found, true), StackChoice::CreateCanned);
        assert_eq!(select_stack(false, false, found, true), StackChoice::CreateCanned);
        assert_eq!(select_stack(false, false, found, false), StackChoice::Prompt);
    }
    assert_eq!(select_stack(false, true, true, false), StackChoice::Found);
    assert_eq!(select_stack(false, true, true, true), StackChoice::Found);
    assert_eq!(select_stack(false, true, false, true), StackChoice::CreateNamed);
    assert_eq!(select_stack(false, true, false, false), StackChoice::NotFound);
}

#[test]
fn selection_counts_from_one() {
    assert_eq!(selected_stack(0, 3), None);
    assert_eq!(selected_stack(1, 3), Some(0));
    assert_eq!(selected_stack(3, 3), Some(2));
    assert_eq!(selected_stack(4, 3), None);
    assert_eq!(selected_stack(1, 0), None);
    assert_eq!(selected_stack(usize::MAX, usize::MAX), Some(usize::MAX - 1));
}

#[test]
fn status_is_that_of_the_first_change_of_the_path() {
    let changes = vec![
        change("added", TreeStatus::Addition),
        change("changed", TreeStatus::Modification),
        change("gone", TreeStatus::Deletion),
        change("moved", TreeStatus::Rename),
        change("gone", TreeStatus::Addition),
    ];
    assert_eq!(get_status_char(&b"added".to_vec(), &changes), "new file:");
    assert_eq!(get_status_char(&b"changed".to_vec(), &changes), "modified:");
    assert_eq!(get_status_char(&b"gone".to_vec(), &changes), "deleted:");
    assert_eq!(get_status_char(&b"moved".to_vec(), &changes), "renamed:");
    assert_eq!(get_status_char(&b"unknown".to_vec(), &changes), "modified:");
    assert_eq!(get_status_char(&b"added".to_vec(), &Vec::new()), "modified:");
}

#[test]
fn template_lists_the_files_to_commit() {
    let changes = vec![change("src/new.rs", TreeStatus::Addition), change("old", TreeStatus::Deletion)];
    let paths = vec![b"src/new.rs".to_vec(), b"caf\xff".to_vec(), b"old".to_vec()];
    assert_eq!(
        commit_message_template(&paths, &changes),
        "\n# Please enter the commit message for your changes. Lines starting\n\
         # with '#' will be ignored, and an empty message aborts the commit.\n\
         #\n\
         # Changes to be committed:\n\
         #\tnew file:  src/new.rs\n\
         #\tmodified:  caf\u{fffd}\n\
         #\tdeleted:  old\n\
         #\n"
    );
    assert_eq!(
        commit_message_template(&Vec::new(), &changes),
        "\n# Please enter the commit message for your changes. Lines starting\n\
         # with '#' will be ignored, and an empty message aborts the commit.\n\
         #\n\
         # Changes to be committed:\n\
         #\n"
    );
    assert_eq!(commit_template_line("renamed:", "a b"), "#\trenamed:  a b\n");
}

#[test]
fn applied_branches_are_marked_by_their_place_in_the_stack() {
    let single = vec![b"only".to_vec()];
    assert_eq!(applied_branch_mark(&single, 0), "* ");
    let three = vec![b"top".to_vec(), b"middle".to_vec(), b"bottom".to_vec()];
    assert_eq!(applied_branch_mark(&three, 0), "*- ");
    assert_eq!(applied_branch_mark(&three, 1), "├─ ");
    assert_eq!(applied_branch_mark(&three, 2), "└─ ");
    let two = vec![b"top".to_vec(), b"bottom".to_vec()];
    assert_eq!(applied_branch_mark(&two, 0), "*- ");
    assert_eq!(applied_branch_mark(&two, 1), "└─ ");
    // Names decide, not places.
    let twins = vec![b"same".to_vec(), b"other".to_vec(), b"same".to_vec()];
    assert_eq!(applied_branch_mark(&twins, 2), "*- ");
}

fn stack_id(text: &str) -> StackId {
    StackId(text.to_string())
}

fn applied(id: Option<&str>, heads: &[&str]) -> AppliedStack {
    AppliedStack {
        id: id.map(stack_id),
        heads: heads.iter().map(|head| head.as_bytes().to_vec()).collect(),
    }
}

fn listed(has_local: bool, stack: Option<&str>) -> BranchListing {
    BranchListing { has_local, stack: stack.map(stack_id) }
}

#[test]
fn branches_of_applied_stacks_are_shown_with_them() {
    let stacks = vec![applied(Some("one"), &["a"]), applied(None, &["b"]), applied(Some("three"), &[])];
    assert!(in_applied_stack(Some(&stack_id("one")), &stacks));
    assert!(in_applied_stack(Some(&stack_id("three")), &stacks));
    assert!(!in_applied_stack(Some(&stack_id("two")), &stacks));
    assert!(!in_applied_stack(Some(&stack_id("on")), &stacks));
    assert!(!in_applied_stack(None, &stacks));
    assert!(!in_applied_stack(Some(&stack_id("one")), &Vec::new()));
}

#[test]
fn list_shows_applied_stacks_then_local_then_remote_branches() {
    let stacks = vec![
        applied(Some("one"), &["top", "bottom"]),
        applied(None, &[]),
        applied(Some("three"), &["single"]),
    ];
    let branches = vec![
        listed(false, None),
        listed(true, Some("one")),
        listed(true, None),
        listed(false, Some("three")),
        listed(true, Some("other")),
        listed(true, Some("three")),
    ];
    assert_eq!(
        list(&stacks, &branches),
        vec![
            ListLine::Applied { stack: 0, head: 0 },
            ListLine::Applied { stack: 0, head: 1 },
            ListLine::Applied { stack: 2, head: 0 },
            ListLine::Local { branch: 2 },
            ListLine::Local { branch: 4 },
            ListLine::Remote { branch: 0 },
            ListLine::Remote { branch: 3 },
        ]
    );
    assert_eq!(list(&Vec::new(), &Vec::new()), Vec::new());
    assert_eq!(
        list(&Vec::new(), &branches[..2].iter().map(|b| listed(b.has_local, None)).collect()),
        vec![ListLine::Local { branch: 1 }, ListLine::Remote { branch: 0 }]
    );
}

#[test]
fn blank_commit_goes_before_a_commit_or_on_top_of_a_stack() {
    assert_eq!(insert_blank_commit(&Vec::new()), Err(InsertionError::NotFound));
    assert_eq!(
        insert_blank_commit(&vec![CliTarget::Commit(id(1))]),
        Ok(Insertion::Before { commit: id(1), offset: 0 })
    );
    assert_eq!(
        insert_blank_commit(&vec![CliTarget::Branch("main".to_string())]),
        Ok(Insertion::OnTop { offset: -1 })
    );
    assert_eq!(insert_blank_commit(&vec![CliTarget::Other]), Err(InsertionError::WrongKind));
    assert_eq!(
        insert_blank_commit(&vec![CliTarget::Commit(id(1)), CliTarget::Other, CliTarget::Other]),
        Err(InsertionError::Ambiguous { matches: 3 })
    );
}

#[test]
fn white_space_is_what_the_standard_library_takes_for_it() {
    for code in 0..=0x10ffffu32 {
        if let Some(c) = char::from_u32(code) {
            assert_eq!(is_whitespace(c), c.is_whitespace(), "U+{code:04X}");
        }
    }
}

fn by_the_standard_library(content: &str) -> String {
    content
        .lines()
        .filter(|line| !line.starts_with('#'))
        .collect::<Vec<_>>()
        .join("\n")
        .trim()
        .to_string()
}

#[test]
fn comments_are_stripped_from_what_the_editor_left() {
    assert_eq!(
        strip_comments("\nFix the thing\n\nIt was broken.\n# Please enter the commit message\n#\n"),
        "Fix the thing\n\nIt was broken."
    );
    assert_eq!(strip_comments(""), "");
    assert_eq!(strip_comments("# only a comment"), "");
    assert_eq!(strip_comments("#\n#\n"), "");
    assert_eq!(strip_comments("  \n\t\n"), "");
    assert_eq!(strip_comments("a\r\nb\r\n"), "a\nb");
    assert_eq!(strip_comments("a\rb\r"), "a\rb");
    assert_eq!(strip_comments(" #not a comment\n#comment\nend #not"), "#not a comment\nend #not");
    assert_eq!(strip_comments("#\r\nx"), "x");
    assert_eq!(strip_comments("\r\n#c\r\n\r\nbody\u{3000}\n"), "body");
    let samples = [
        "",
        "\n",
        "\n\n",
        "a",
        "a\n",
        "a\n\n",
        "\na",
        "#",
        "#\n",
        "a\n#b\nc",
        "a\n#b\nc\n",
        "#a\n#b",
        "a\r\n#b\r\nc\r\n",
        "\r",
        "\r\n",
        "a\r",
        "\r\r\n",
        "#\r",
        "x\n\r\n#\ny\r",
        "  lead\n#c\ntrail  \n\n",
        "\u{a0}nbsp\u{a0}\n#\n\u{2028}",
        "é\n#ü\nß\n",
        "one\n\n\n#\n\ntwo",
        "\t#tab before hash\n",
        "a\n#",
        "a\n#\n\n",
    ];
    for sample in samples {
        assert_eq!(strip_comments(sample), by_the_standard_library(sample), "{sample:?}");
    }
}

#[test]
fn trimming_takes_the_white_space_off_both_ends() {
    for sample in ["", " ", "a", " a", "a ", " a b \n", "\u{3000}x\u{85}", "\n\n", "a\u{200b}", " é "] {
        assert_eq!(trim(sample), sample.trim(), "{sample:?}");
    }
}
