use agent_atuin::database::MemoryStore;
use agent_atuin::memory::Memory;

/// A memory with the fields the store's tests vary.
fn test_memory_full(
    description: &str,
    cwd: &str,
    repo_root: Option<&str>,
    agent_id: Option<&str>,
) -> Memory {
    Memory::new(
        description.to_string(),
        cwd.to_string(),
        repo_root.map(String::from),
        Some("main".to_string()),
        Some("abc123".to_string()),
        agent_id.map(String::from),
        None,
    )
}

fn test_memory(description: &str) -> Memory {
    test_memory_full(description, "/home/test", None, None)
}

fn test_memory_with_parent(description: &str, parent_id: &str) -> Memory {
    let mut m = test_memory(description);
    m.parent_memory_id = Some(parent_id.to_string());
    m
}

/// The same memory, created `ms` milliseconds after `earlier`.
fn later(mut m: Memory, earlier: &Memory, ms: i64) -> Memory {
    m.created_at = earlier.created_at + ms * 1_000_000;
    m
}

fn test_db() -> MemoryStore {
    MemoryStore::new()
}

#[test]
fn test_create_and_get() {
    let mut db = test_db();
    let memory = test_memory("Test memory description");

    db.create(&memory).unwrap();

    let retrieved = db.get(&memory.id).unwrap();
    assert_eq!(retrieved.id, memory.id);
    assert_eq!(retrieved.description, memory.description);
    assert_eq!(retrieved.cwd, memory.cwd);
    assert_eq!(retrieved.repo_root, memory.repo_root);
    assert_eq!(retrieved.git_branch, memory.git_branch);
    assert_eq!(retrieved.git_commit, memory.git_commit);
    assert_eq!(retrieved.agent_id, memory.agent_id);
}

#[test]
fn test_get_nonexistent() {
    let db = test_db();

    let result = db.get("nonexistent-id");
    assert!(result.is_none());
}

#[test]
fn test_delete() {
    let mut db = test_db();
    let memory = test_memory("Memory to delete");

    db.create(&memory).unwrap();
    assert!(db.get(&memory.id).is_some());

    db.delete(&memory.id);
    assert!(db.get(&memory.id).is_none());
}

#[test]
fn test_list_empty() {
    let db = test_db();

    let results = db.list(None, None, None, None);
    assert!(results.is_empty());
}

#[test]
fn test_list_all() {
    let mut db = test_db();

    let memory1 = test_memory("First memory");
    let memory2 = later(test_memory("Second memory"), &memory1, 10);
    let memory3 = later(test_memory("Third memory"), &memory2, 10);

    db.create(&memory1).unwrap();
    db.create(&memory2).unwrap();
    db.create(&memory3).unwrap();

    let results = db.list(None, None, None, None);
    assert_eq!(results.len(), 3);
    // Should be ordered by created_at DESC (newest first)
    assert_eq!(results[0].id, memory3.id);
    assert_eq!(results[1].id, memory2.id);
    assert_eq!(results[2].id, memory1.id);
}

#[test]
fn test_list_with_limit() {
    let mut db = test_db();

    for i in 0..5 {
        let memory = test_memory(&format!("Memory {}", i));
        db.create(&memory).unwrap();
    }

    let results = db.list(None, None, None, Some(3));
    assert_eq!(results.len(), 3);
}

#[test]
fn test_list_filter_by_repo_root() {
    let mut db = test_db();

    let memory1 = test_memory_full("Memory in repo A", "/home/test", Some("/repo/a"), None);
    let memory2 = test_memory_full("Memory in repo B", "/home/test", Some("/repo/b"), None);
    let memory3 = test_memory_full("Memory in repo A again", "/home/test", Some("/repo/a"), None);

    db.create(&memory1).unwrap();
    db.create(&memory2).unwrap();
    db.create(&memory3).unwrap();

    let results = db.list(Some("/repo/a"), None, None, None);
    assert_eq!(results.len(), 2);
    assert!(results.iter().all(|m| m.repo_root == Some("/repo/a".to_string())));
}

#[test]
fn test_list_filter_by_cwd() {
    let mut db = test_db();

    let memory1 = test_memory_full("Memory in dir A", "/dir/a", None, None);
    let memory2 = test_memory_full("Memory in dir B", "/dir/b", None, None);
    let memory3 = test_memory_full("Memory in dir A again", "/dir/a", None, None);

    db.create(&memory1).unwrap();
    db.create(&memory2).unwrap();
    db.create(&memory3).unwrap();

    let results = db.list(None, Some("/dir/a"), None, None);
    assert_eq!(results.len(), 2);
    assert!(results.iter().all(|m| m.cwd == "/dir/a"));
}

#[test]
fn test_list_filter_by_agent_id() {
    let mut db = test_db();

    let memory1 = test_memory_full("Memory by agent A", "/home/test", None, Some("agent-a"));
    let memory2 = test_memory_full("Memory by agent B", "/home/test", None, Some("agent-b"));
    let memory3 = test_memory_full("Memory by agent A again", "/home/test", None, Some("agent-a"));

    db.create(&memory1).unwrap();
    db.create(&memory2).unwrap();
    db.create(&memory3).unwrap();

    let results = db.list(None, None, Some("agent-a"), None);
    assert_eq!(results.len(), 2);
    assert!(results.iter().all(|m| m.agent_id == Some("agent-a".to_string())));
}

#[test]
fn test_list_filter_combined() {
    let mut db = test_db();

    let memory1 = test_memory_full("Match all", "/dir/a", Some("/repo/x"), Some("agent-1"));
    let memory2 = test_memory_full("Wrong repo", "/dir/a", Some("/repo/y"), Some("agent-1"));
    let memory3 = test_memory_full("Wrong cwd", "/dir/b", Some("/repo/x"), Some("agent-1"));
    let memory4 = test_memory_full("Wrong agent", "/dir/a", Some("/repo/x"), Some("agent-2"));
    let memory5 = test_memory_full("Match all again", "/dir/a", Some("/repo/x"), Some("agent-1"));

    db.create(&memory1).unwrap();
    db.create(&memory2).unwrap();
    db.create(&memory3).unwrap();
    db.create(&memory4).unwrap();
    db.create(&memory5).unwrap();

    let results = db.list(Some("/repo/x"), Some("/dir/a"), Some("agent-1"), None);
    assert_eq!(results.len(), 2);
    assert!(results.iter().all(|m| {
        m.repo_root == Some("/repo/x".to_string())
            && m.cwd == "/dir/a"
            && m.agent_id == Some("agent-1".to_string())
    }));
}

/// The identifiers the full-text index ranks for a query: here, the memories
/// whose description holds the query word (the index's own ranking is left
/// to the database).
fn full_text_matches(memories: &[&Memory], word: &str) -> Vec<String> {
    memories
        .iter()
        .filter(|m| m.description.contains(word))
        .map(|m| m.id.clone())
        .collect()
}

#[test]
fn test_search_basic() {
    let mut db = test_db();

    let memory1 = test_memory("Fixed the authentication bug in login");
    let memory2 = test_memory("Added new dashboard feature");
    let memory3 = test_memory("Refactored authentication module");

    db.create(&memory1).unwrap();
    db.create(&memory2).unwrap();
    db.create(&memory3).unwrap();

    let ranked = full_text_matches(&[&memory1, &memory2, &memory3], "authentication");
    let results = db.search(&ranked, None);
    assert_eq!(results.len(), 2);
    assert!(results.iter().all(|m| m.description.contains("authentication")));
}

#[test]
fn test_search_no_results() {
    let mut db = test_db();

    let memory = test_memory("Fixed a bug");
    db.create(&memory).unwrap();

    let ranked = full_text_matches(&[&memory], "nonexistent");
    let results = db.search(&ranked, None);
    assert!(results.is_empty());
}

#[test]
fn test_search_with_repo_filter() {
    let mut db = test_db();

    let memory1 = test_memory_full("Fixed auth bug", "/home/test", Some("/repo/frontend"), None);
    let memory2 = test_memory_full("Fixed auth issue", "/home/test", Some("/repo/backend"), None);
    let memory3 = test_memory_full("Fixed auth problem", "/home/test", Some("/repo/frontend"), None);

    db.create(&memory1).unwrap();
    db.create(&memory2).unwrap();
    db.create(&memory3).unwrap();

    let ranked = full_text_matches(&[&memory1, &memory2, &memory3], "auth");
    let results = db.search(&ranked, Some("/repo/frontend"));
    assert_eq!(results.len(), 2);
    assert!(results.iter().all(|m| m.repo_root == Some("/repo/frontend".to_string())));
}

#[test]
fn test_link_command() {
    let mut db = test_db();
    let memory = test_memory("Test memory");

    db.create(&memory).unwrap();
    db.link_command(&memory.id, "history-123").unwrap();

    let commands = db.get_linked_commands(&memory.id);
    assert_eq!(commands.len(), 1);
    assert_eq!(commands[0], "history-123");
}

#[test]
fn test_link_multiple_commands() {
    let mut db = test_db();
    let memory = test_memory("Test memory");

    db.create(&memory).unwrap();
    db.link_command(&memory.id, "history-1").unwrap();
    db.link_command(&memory.id, "history-2").unwrap();
    db.link_command(&memory.id, "history-3").unwrap();

    let commands = db.get_linked_commands(&memory.id);
    assert_eq!(commands.len(), 3);
}

#[test]
fn test_link_command_duplicate() {
    let mut db = test_db();
    let memory = test_memory("Test memory");

    db.create(&memory).unwrap();
    db.link_command(&memory.id, "history-123").unwrap();
    // A second link of the same pair is no error, and no second link
    db.link_command(&memory.id, "history-123").unwrap();

    let commands = db.get_linked_commands(&memory.id);
    assert_eq!(commands.len(), 1);
}

#[test]
fn test_get_linked_command_count() {
    let mut db = test_db();
    let memory = test_memory("Test memory");

    db.create(&memory).unwrap();
    assert_eq!(db.get_linked_command_count(&memory.id), 0);

    db.link_command(&memory.id, "history-1").unwrap();
    db.link_command(&memory.id, "history-2").unwrap();
    assert_eq!(db.get_linked_command_count(&memory.id), 2);
}

#[test]
fn test_delete_cascades_to_commands() {
    let mut db = test_db();
    let memory = test_memory("Test memory");

    db.create(&memory).unwrap();
    db.link_command(&memory.id, "history-1").unwrap();
    db.link_command(&memory.id, "history-2").unwrap();

    db.delete(&memory.id);

    let commands = db.get_linked_commands(&memory.id);
    assert!(commands.is_empty());
}

#[test]
fn test_special_characters_in_description() {
    let mut db = test_db();

    let memory = test_memory("Fixed bug with 'quotes' and \"double quotes\" and special chars: <>&;");
    db.create(&memory).unwrap();

    let retrieved = db.get(&memory.id).unwrap();
    assert_eq!(retrieved.description, memory.description);

    let ranked = full_text_matches(&[&memory], "quotes");
    let results = db.search(&ranked, None);
    assert_eq!(results.len(), 1);
}

#[test]
fn test_memory_with_all_fields() {
    let mut db = test_db();

    let memory = Memory::new(
        "Full memory with all fields".to_string(),
        "/home/user/project".to_string(),
        Some("/home/user/project".to_string()),
        Some("feature/test".to_string()),
        Some("abc123def456".to_string()),
        Some("coding-agent-v1".to_string()),
        None,
    );

    db.create(&memory).unwrap();

    let retrieved = db.get(&memory.id).unwrap();
    assert_eq!(retrieved.id, memory.id);
    assert_eq!(retrieved.description, memory.description);
    assert_eq!(retrieved.cwd, memory.cwd);
    assert_eq!(retrieved.repo_root, memory.repo_root);
    assert_eq!(retrieved.git_branch, memory.git_branch);
    assert_eq!(retrieved.git_commit, memory.git_commit);
    assert_eq!(retrieved.agent_id, memory.agent_id);
    assert_eq!(retrieved.parent_memory_id, memory.parent_memory_id);
}

#[test]
fn test_create_with_parent() {
    let mut db = test_db();

    let parent = test_memory("Parent task");
    db.create(&parent).unwrap();

    let child = test_memory_with_parent("Child task", &parent.id);
    db.create(&child).unwrap();

    let retrieved = db.get(&child.id).unwrap();
    assert_eq!(retrieved.parent_memory_id, Some(parent.id.clone()));
}

#[test]
fn test_create_with_invalid_parent_fails() {
    let mut db = test_db();

    let child = test_memory_with_parent("Orphan task", "nonexistent-parent-id");
    let result = db.create(&child);

    assert!(result.is_err());
    assert!(result.unwrap_err().message().contains("Parent memory not found"));
}

#[test]
fn test_get_children() {
    let mut db = test_db();

    let parent = test_memory("Parent task");
    db.create(&parent).unwrap();

    let child1 = later(test_memory_with_parent("Child 1", &parent.id), &parent, 1);
    let child2 = later(test_memory_with_parent("Child 2", &parent.id), &child1, 10);
    let child3 = later(test_memory_with_parent("Child 3", &parent.id), &child2, 10);

    db.create(&child1).unwrap();
    db.create(&child2).unwrap();
    db.create(&child3).unwrap();

    let children = db.get_children(&parent.id);
    assert_eq!(children.len(), 3);

    // Newest first
    assert_eq!(children[0].id, child3.id);
    assert_eq!(children[1].id, child2.id);
    assert_eq!(children[2].id, child1.id);
}

#[test]
fn test_get_children_empty() {
    let mut db = test_db();

    let memory = test_memory("Memory without children");
    db.create(&memory).unwrap();

    let children = db.get_children(&memory.id);
    assert!(children.is_empty());
}

#[test]
fn test_get_ancestors() {
    let mut db = test_db();

    let grandparent = test_memory("Grandparent");
    db.create(&grandparent).unwrap();

    let parent = test_memory_with_parent("Parent", &grandparent.id);
    db.create(&parent).unwrap();

    let child = test_memory_with_parent("Child", &parent.id);
    db.create(&child).unwrap();

    let ancestors = db.get_ancestors(&child.id);
    assert_eq!(ancestors.len(), 2);

    let ancestor_ids: Vec<&str> = ancestors.iter().map(|m| m.id.as_str()).collect();
    assert!(ancestor_ids.contains(&parent.id.as_str()));
    assert!(ancestor_ids.contains(&grandparent.id.as_str()));
}

#[test]
fn test_get_ancestors_root_has_none() {
    let mut db = test_db();

    let root = test_memory("Root memory");
    db.create(&root).unwrap();

    let ancestors = db.get_ancestors(&root.id);
    assert!(ancestors.is_empty());
}

#[test]
fn test_get_tree() {
    let mut db = test_db();

    // root1
    //   ├── child1
    //   │   └── grandchild1
    //   └── child2
    // root2
    //   └── child3

    let root1 = test_memory("Root 1");
    db.create(&root1).unwrap();

    let root2 = test_memory("Root 2");
    db.create(&root2).unwrap();

    let child1 = test_memory_with_parent("Child 1", &root1.id);
    db.create(&child1).unwrap();

    let child2 = test_memory_with_parent("Child 2", &root1.id);
    db.create(&child2).unwrap();

    let child3 = test_memory_with_parent("Child 3", &root2.id);
    db.create(&child3).unwrap();

    let grandchild1 = test_memory_with_parent("Grandchild 1", &child1.id);
    db.create(&grandchild1).unwrap();

    let tree = db.get_tree(None, None);
    assert_eq!(tree.len(), 6);

    let tree_from_root1 = db.get_tree(Some(&root1.id), None);
    assert_eq!(tree_from_root1.len(), 4); // root1, child1, child2, grandchild1

    let shallow_tree = db.get_tree(Some(&root1.id), Some(1));
    assert_eq!(shallow_tree.len(), 3); // root1, child1, child2
}

#[test]
fn test_get_roots() {
    let mut db = test_db();

    let root1 = test_memory("Root 1");
    let root2 = later(test_memory("Root 2"), &root1, 10);
    let root3 = later(test_memory("Root 3"), &root2, 10);

    db.create(&root1).unwrap();
    db.create(&root2).unwrap();
    db.create(&root3).unwrap();

    let child = test_memory_with_parent("Child", &root1.id);
    db.create(&child).unwrap();

    let roots = db.get_roots(None);
    assert_eq!(roots.len(), 3);

    let limited_roots = db.get_roots(Some(2));
    assert_eq!(limited_roots.len(), 2);
}

#[test]
fn test_delete_parent_orphans_children() {
    let mut db = test_db();

    let parent = test_memory("Parent");
    db.create(&parent).unwrap();

    let child = test_memory_with_parent("Child", &parent.id);
    db.create(&child).unwrap();

    let retrieved_child = db.get(&child.id).unwrap();
    assert_eq!(retrieved_child.parent_memory_id, Some(parent.id.clone()));

    db.delete(&parent.id);

    let orphaned_child = db.get(&child.id).unwrap();
    assert!(orphaned_child.parent_memory_id.is_none());
}

#[test]
fn test_exists() {
    let mut db = test_db();

    let memory = test_memory("Test memory");
    db.create(&memory).unwrap();

    assert!(db.memory_exists(&memory.id));
    assert!(!db.memory_exists("nonexistent-id"));
}
