use agent_atuin::database::MemoryStore;
use agent_atuin::memory::Memory;
use agent_atuin::memory_cmd::Cmd;

fn test_db() -> MemoryStore {
    MemoryStore::new()
}

/// A memory with the given description and parent.
fn make_memory(description: &str, parent: Option<&str>) -> Memory {
    Memory::new(
        description.to_string(),
        "/tmp".to_string(),
        None,
        None,
        None,
        None,
        parent.map(String::from),
    )
}

fn tree_cmd() -> Cmd {
    Cmd::Tree { root: None, depth: 10, json: true }
}

#[test]
fn test_build_tree_json_empty() {
    let db = test_db();
    let cmd = tree_cmd();

    let result = cmd.build_tree_json(&db, &vec![]);
    assert!(result.is_empty());
}

#[test]
fn test_build_tree_json_single_root() {
    let mut db = test_db();
    let cmd = tree_cmd();

    let root = make_memory("single root", None);
    db.create(&root).unwrap();
    db.link_command(&root.id, "hist-1").unwrap();

    let result = cmd.build_tree_json(&db, &vec![root.copy()]);
    assert_eq!(result.len(), 1);
    assert_eq!(result[0].memory.id, root.id);
    assert_eq!(result[0].memory.description, "single root");
    assert_eq!(result[0].memory.commands_count, 1);
    assert!(result[0].children.is_empty());
}

#[test]
fn test_build_tree_json_parent_child() {
    let mut db = test_db();
    let cmd = tree_cmd();

    let root = make_memory("root", None);
    db.create(&root).unwrap();

    let child1 = make_memory("child 1", Some(&root.id));
    db.create(&child1).unwrap();

    let child2 = make_memory("child 2", Some(&root.id));
    db.create(&child2).unwrap();

    let memories = vec![root.copy(), child1.copy(), child2.copy()];
    let result = cmd.build_tree_json(&db, &memories);

    assert_eq!(result.len(), 1, "should have one root");
    assert_eq!(result[0].memory.id, root.id);
    assert_eq!(result[0].children.len(), 2, "root should have 2 children");

    let child_ids: Vec<&str> = result[0].children.iter().map(|c| c.memory.id.as_str()).collect();
    assert!(child_ids.contains(&child1.id.as_str()));
    assert!(child_ids.contains(&child2.id.as_str()));
}

#[test]
fn test_build_tree_json_deep_nesting() {
    let mut db = test_db();
    let cmd = tree_cmd();

    let root = make_memory("root", None);
    db.create(&root).unwrap();

    let child = make_memory("child", Some(&root.id));
    db.create(&child).unwrap();

    let grandchild = make_memory("grandchild", Some(&child.id));
    db.create(&grandchild).unwrap();

    let memories = vec![root.copy(), child.copy(), grandchild.copy()];
    let result = cmd.build_tree_json(&db, &memories);

    assert_eq!(result.len(), 1);
    assert_eq!(result[0].memory.id, root.id);
    assert_eq!(result[0].children.len(), 1);
    assert_eq!(result[0].children[0].memory.id, child.id);
    assert_eq!(result[0].children[0].children.len(), 1);
    assert_eq!(result[0].children[0].children[0].memory.id, grandchild.id);
    assert!(result[0].children[0].children[0].children.is_empty());
}

#[test]
fn test_build_tree_json_multiple_roots() {
    let mut db = test_db();
    let cmd = tree_cmd();

    let root1 = make_memory("root 1", None);
    db.create(&root1).unwrap();

    let root2 = make_memory("root 2", None);
    db.create(&root2).unwrap();

    let memories = vec![root1.copy(), root2.copy()];
    let result = cmd.build_tree_json(&db, &memories);

    assert_eq!(result.len(), 2, "should have two roots");
    let root_ids: Vec<&str> = result.iter().map(|r| r.memory.id.as_str()).collect();
    assert!(root_ids.contains(&root1.id.as_str()));
    assert!(root_ids.contains(&root2.id.as_str()));
}
