use agent_atuin::database::{MemoryError, MemoryStore};
use agent_atuin::import::{detect_shell, ends_with, Detected, HistoryImporter, ImportResultJson, ShellCmd};
use agent_atuin::import::{choose_importer, unsupported_text, BATCH_SIZE};
use agent_atuin::like::like;
use agent_atuin::memory::{created_at_text, repo_name, Memory, MemoryJson};
use agent_atuin::memory_cmd::{
    create_json, create_memory, delete_memory, link_memory, read_answer, replay_order, resolve_parent, show_json,
    summaries, Cmd, LinkedCommandJson, RunAnswer,
};
use agent_atuin::stats::{classify_period, parse_ngram_size, period_days, period_words, stats_json, StatsPeriod};
use agent_atuin::store::{uuid_hyphenated, HostStatus, RecordRef, TagStatus};
use agent_atuin::store::Cmd as StoreCmd;
use agent_atuin::sync::{key_mnemonic, store_init_needed, sync_totals, SyncResultJson};
use agent_atuin::text::{i64_text, usize_text};
use agent_atuin::memory_cmd::{memory_db_path, search_memories, show_lines};
use agent_atuin::import::detected_text;
use agent_atuin::text::str_eq;
use agent_atuin::stats::{stats_range, PeriodRange};
use agent_atuin::memory_cmd::{CommandOutcome, ReplayAction, ReplayEvent, ReplayOptions};

fn memory(description: &str, parent: Option<&str>) -> Memory {
    Memory::new(description.to_string(), "/work".to_string(), None, None, None, None, parent.map(String::from))
}

fn chars(s: &str) -> Vec<char> {
    s.chars().collect()
}

// ---------------------------------------------------------------- memories

#[test]
fn new_memory_has_simple_uuid() {
    let m = memory("x", None);
    assert_eq!(m.id.len(), 32);
    assert!(m.id.chars().all(|c| c.is_ascii_digit() || ('a'..='f').contains(&c)));
    let other = memory("x", None);
    assert_ne!(m.id, other.id);
}

#[test]
fn created_text_is_rfc3339() {
    assert_eq!(created_at_text(0), "1970-01-01T00:00:00Z");
    assert_eq!(created_at_text(1_500_000_000), "1970-01-01T00:00:01.5Z");
    assert_eq!(created_at_text(1_718_454_600_000_000_000), "2024-06-15T12:30:00Z");
}

#[test]
fn repo_name_is_last_component() {
    assert_eq!(repo_name("/home/user/project"), Some("project".to_string()));
    assert_eq!(repo_name("/home/user/project/"), Some("project".to_string()));
    assert_eq!(repo_name("/a/./b/."), Some("b".to_string()));
    assert_eq!(repo_name("/"), None);
    assert_eq!(repo_name(""), None);
    assert_eq!(repo_name("/a/.."), None);
}

#[test]
fn json_summary_names_repo() {
    let mut m = memory("summary", None);
    m.repo_root = Some("/src/atuin".to_string());
    m.created_at = 0;
    let j = MemoryJson::from(&m);
    assert_eq!(j.repo, Some("atuin".to_string()));
    assert_eq!(j.created_at, "1970-01-01T00:00:00Z");
    assert_eq!(j.commands_count, 0);
}

#[test]
fn error_messages() {
    assert_eq!(MemoryError::ParentNotFound("p".to_string()).message(), "Parent memory not found: p");
    assert_eq!(
        MemoryError::AlreadyExists("a".to_string()).message(),
        "error returned from database: (code: 1555) UNIQUE constraint failed: memories.id"
    );
    assert_eq!(
        MemoryError::LinkRefused("m".to_string()).message(),
        "error returned from database: (code: 787) FOREIGN KEY constraint failed"
    );
    assert_eq!(MemoryError::MemoryNotFound("m".to_string()).message(), "Memory not found: m");
}

// ---------------------------------------------------------------- the store

#[test]
fn read_after_create_gives_back_the_memory() {
    let mut db = MemoryStore::new();
    let m = memory("remember me", None);
    db.create(&m).unwrap();
    let got = db.get(&m.id).unwrap();
    assert_eq!(got.id, m.id);
    assert_eq!(got.description, m.description);
    assert_eq!(got.created_at, m.created_at);
    assert_eq!(db.len(), 1);
}

#[test]
fn creating_twice_is_refused() {
    let mut db = MemoryStore::new();
    let m = memory("once", None);
    db.create(&m).unwrap();
    let err = db.create(&m).unwrap_err();
    assert!(matches!(err, MemoryError::AlreadyExists(_)));
    assert_eq!(db.len(), 1);
}

#[test]
fn linking_to_missing_memory_fails() {
    let mut db = MemoryStore::new();
    let err = db.link_command("missing", "h1").unwrap_err();
    assert!(matches!(err, MemoryError::LinkRefused(_)));
    assert_eq!(err.message(), "error returned from database: (code: 787) FOREIGN KEY constraint failed");
    assert!(db.get_linked_commands("missing").is_empty());
}

#[test]
fn linking_twice_changes_nothing() {
    let mut db = MemoryStore::new();
    let m = memory("m", None);
    db.create(&m).unwrap();
    db.link_command(&m.id, "h1").unwrap();
    db.link_command(&m.id, "h2").unwrap();
    db.link_command(&m.id, "h1").unwrap();
    assert_eq!(db.get_linked_commands(&m.id), vec!["h1".to_string(), "h2".to_string()]);
    assert_eq!(db.get_linked_command_count(&m.id), 2);
}

#[test]
fn delete_keeps_others_and_their_links() {
    let mut db = MemoryStore::new();
    let a = memory("a", None);
    let b = memory("b", Some(&a.id));
    let c = memory("c", None);
    db.create(&a).unwrap();
    db.create(&b).unwrap();
    db.create(&c).unwrap();
    db.link_command(&a.id, "h1").unwrap();
    db.link_command(&c.id, "h2").unwrap();
    db.delete(&a.id);
    assert!(!db.memory_exists(&a.id));
    assert_eq!(db.len(), 2);
    assert_eq!(db.get(&b.id).unwrap().parent_memory_id, None);
    assert_eq!(db.get_linked_commands(&c.id), vec!["h2".to_string()]);
    // deleting again changes nothing
    db.delete(&a.id);
    assert_eq!(db.len(), 2);
}

#[test]
fn list_orders_newest_first_and_limits() {
    let mut db = MemoryStore::new();
    let mut a = memory("a", None);
    let mut b = memory("b", None);
    let mut c = memory("c", None);
    a.created_at = 30;
    b.created_at = 10;
    c.created_at = 20;
    db.create(&a).unwrap();
    db.create(&b).unwrap();
    db.create(&c).unwrap();
    let all: Vec<String> = db.list(None, None, None, None).into_iter().map(|m| m.description).collect();
    assert_eq!(all, vec!["a", "c", "b"]);
    let two: Vec<String> = db.list(None, None, None, Some(2)).into_iter().map(|m| m.description).collect();
    assert_eq!(two, vec!["a", "c"]);
    assert!(db.list(None, None, None, Some(0)).is_empty());
}

#[test]
fn search_keeps_ranking_and_skips_unknown() {
    let mut db = MemoryStore::new();
    let a = memory("a", None);
    let b = memory("b", None);
    db.create(&a).unwrap();
    db.create(&b).unwrap();
    let ranked = vec![b.id.clone(), "gone".to_string(), a.id.clone()];
    let found: Vec<String> = db.search(&ranked, None).into_iter().map(|m| m.description).collect();
    assert_eq!(found, vec!["b", "a"]);
}

#[test]
fn search_by_command_matches_like_pattern() {
    let mut db = MemoryStore::new();
    let a = memory("a", None);
    let b = memory("b", None);
    db.create(&a).unwrap();
    db.create(&b).unwrap();
    db.link_command(&a.id, "h1").unwrap();
    db.link_command(&b.id, "h2").unwrap();
    let commands = vec![
        ("h1".to_string(), "CARGO build".to_string()),
        ("h2".to_string(), "npm test".to_string()),
    ];
    let found = db.search_by_command(&commands, "cargo", None);
    assert_eq!(found.len(), 1);
    assert_eq!(found[0].id, a.id);
    assert!(db.search_by_command(&commands, "pytest", None).is_empty());
    // the pattern is matched against the command, not the history id
    assert!(db.search_by_command(&commands, "h1", None).is_empty());
    let test = db.search_by_command(&commands, "test", None);
    assert_eq!(test.len(), 1);
    assert_eq!(test[0].id, b.id);
}

#[test]
fn search_dispatch() {
    let mut db = MemoryStore::new();
    let mut a = memory("deploy", None);
    let mut b = memory("build", None);
    a.created_at = 1;
    b.created_at = 2;
    db.create(&a).unwrap();
    db.create(&b).unwrap();
    db.link_command(&a.id, "h1").unwrap();
    db.link_command(&b.id, "h2").unwrap();
    let commands = vec![("h1".to_string(), "kubectl apply".to_string()), ("h2".to_string(), "kubectl get".to_string())];
    let by_cmd = search_memories(&db, &vec![a.id.clone()], &commands, Some("kubectl"), None);
    let names: Vec<String> = by_cmd.into_iter().map(|m| m.description).collect();
    assert_eq!(names, vec!["build", "deploy"]);
    let by_text = search_memories(&db, &vec![a.id.clone()], &commands, None, None);
    assert_eq!(by_text.len(), 1);
    assert_eq!(by_text[0].id, a.id);
}

#[test]
fn like_pattern_rules() {
    assert!(like(&chars("%ca_go%"), &chars("run CARGO build")));
    assert!(like(&chars("abc"), &chars("ABC")));
    assert!(!like(&chars("a_c"), &chars("ac")));
    assert!(like(&chars("%"), &chars("")));
    assert!(!like(&chars("x%"), &chars("yx")));
}

#[test]
fn ancestors_nearest_parent_chain() {
    let mut db = MemoryStore::new();
    let a = memory("a", None);
    let b = memory("b", Some(&a.id));
    let c = memory("c", Some(&b.id));
    let d = memory("d", None);
    db.create(&a).unwrap();
    db.create(&b).unwrap();
    db.create(&c).unwrap();
    db.create(&d).unwrap();
    let anc: Vec<String> = db.get_ancestors(&c.id).into_iter().map(|m| m.description).collect();
    assert_eq!(anc.len(), 2);
    assert!(anc.contains(&"a".to_string()) && anc.contains(&"b".to_string()));
    assert!(db.get_ancestors(&d.id).is_empty());
    assert!(db.get_ancestors("missing").is_empty());
}

#[test]
fn tree_depth_zero_is_the_root_alone() {
    let mut db = MemoryStore::new();
    let a = memory("a", None);
    let b = memory("b", Some(&a.id));
    db.create(&a).unwrap();
    db.create(&b).unwrap();
    assert_eq!(db.get_tree(Some(&a.id), Some(0)).len(), 1);
    assert_eq!(db.get_tree(Some(&b.id), None).len(), 1);
    assert!(db.get_tree(Some("missing"), None).is_empty());
}

#[test]
fn every_memory_appears_in_the_forest() {
    let mut db = MemoryStore::new();
    let a = memory("a", None);
    let b = memory("b", Some(&a.id));
    let c = memory("c", Some(&b.id));
    let d = memory("d", None);
    for m in [&a, &b, &c, &d] {
        db.create(m).unwrap();
    }
    let all = db.get_tree(None, None);
    let forest = (Cmd::Tree { root: None, depth: 10, json: true }).build_tree_json(&db, &all);
    fn count(nodes: &[agent_atuin::memory::MemoryTreeNode]) -> usize {
        nodes.iter().map(|n| 1 + count(&n.children)).sum()
    }
    assert_eq!(count(&forest), 4);
    assert_eq!(forest.len(), 2);
}

// ---------------------------------------------------------------- memory commands

#[test]
fn create_memory_links_given_then_recent() {
    let mut db = MemoryStore::new();
    let m = memory("task", None);
    let n = create_memory(&mut db, &m, &vec!["h1".to_string()], &vec!["h2".to_string(), "h1".to_string()]).unwrap();
    assert_eq!(n, 3);
    assert_eq!(db.get_linked_commands(&m.id), vec!["h1".to_string(), "h2".to_string()]);
}

#[test]
fn create_memory_with_missing_parent_fails() {
    let mut db = MemoryStore::new();
    let m = memory("task", Some("nope"));
    let err = create_memory(&mut db, &m, &vec![], &vec![]).unwrap_err();
    assert_eq!(err.message(), "Parent memory not found: nope");
    assert_eq!(db.len(), 0);
}

#[test]
fn link_memory_needs_the_memory() {
    let mut db = MemoryStore::new();
    let err = link_memory(&mut db, "nope", &vec!["h".to_string()], &vec![]).unwrap_err();
    assert!(matches!(err, MemoryError::MemoryNotFound(_)));
    let m = memory("task", None);
    db.create(&m).unwrap();
    assert_eq!(link_memory(&mut db, &m.id, &vec!["h".to_string()], &vec!["i".to_string()]).unwrap(), 2);
}

#[test]
fn delete_memory_needs_the_memory() {
    let mut db = MemoryStore::new();
    assert!(matches!(delete_memory(&mut db, "nope"), Err(MemoryError::MemoryNotFound(_))));
    let m = memory("task", None);
    db.create(&m).unwrap();
    assert!(delete_memory(&mut db, &m.id).is_ok());
    assert_eq!(db.len(), 0);
}

#[test]
fn parent_from_flag_before_environment() {
    assert_eq!(resolve_parent(Some("flag"), Some("env".to_string())), Some("flag".to_string()));
    assert_eq!(resolve_parent(None, Some("env".to_string())), Some("env".to_string()));
    assert_eq!(resolve_parent(None, None), None);
}

#[test]
fn reports_carry_the_memory() {
    let mut db = MemoryStore::new();
    let mut m = memory("report", None);
    m.repo_root = Some("/r/proj".to_string());
    m.git_branch = Some("main".to_string());
    m.created_at = 0;
    db.create(&m).unwrap();
    db.link_command(&m.id, "h").unwrap();
    let c = create_json(&m, 1, &m.repo_root, Some("main".to_string()), None);
    assert_eq!(c.repo, Some("proj".to_string()));
    assert_eq!(c.commands_linked, 1);
    let s = summaries(&db, &vec![m.copy()]);
    assert_eq!(s[0].commands_count, 1);
    let linked = vec![LinkedCommandJson {
        history_id: "h".to_string(),
        command: "ls".to_string(),
        cwd: "/tmp".to_string(),
        exit: 0,
        duration: 10,
        timestamp: "2024-01-01T00:00:01Z".to_string(),
    }];
    let show = show_json(&m, linked);
    assert_eq!(show.repo, Some("proj".to_string()));
    assert_eq!(show.branch, Some("main".to_string()));
    assert_eq!(show.created_at, "1970-01-01T00:00:00Z");
    assert_eq!(show.linked_commands[0].command, "ls");
}

#[test]
fn answers_to_run_prompt() {
    assert_eq!(read_answer(" q\n"), RunAnswer::Abort);
    assert_eq!(read_answer("Q"), RunAnswer::Abort);
    assert_eq!(read_answer("n"), RunAnswer::Skip);
    assert_eq!(read_answer("\tN "), RunAnswer::Skip);
    assert_eq!(read_answer("y"), RunAnswer::Run);
    assert_eq!(read_answer(""), RunAnswer::Run);
    assert_eq!(read_answer("no"), RunAnswer::Run);
}

#[test]
fn replay_is_oldest_first_and_stable() {
    assert_eq!(replay_order(&vec![30, 10, 20, 10]), vec![1, 3, 2, 0]);
    assert_eq!(replay_order(&vec![]), Vec::<usize>::new());
}

// ---------------------------------------------------------------- stats

#[test]
fn ngram_size_argument() {
    assert_eq!(parse_ngram_size("3"), Ok(3));
    assert_eq!(parse_ngram_size("+5"), Ok(5));
    assert_eq!(parse_ngram_size("0"), Err("ngram window size must be at least 1".to_string()));
    assert_eq!(parse_ngram_size("abc"), Err("'abc' is not a valid window size".to_string()));
    assert_eq!(parse_ngram_size(""), Err("'' is not a valid window size".to_string()));
    assert_eq!(
        parse_ngram_size("99999999999999999999999"),
        Err("'99999999999999999999999' is not a valid window size".to_string())
    );
}

#[test]
fn period_words_and_kinds() {
    assert_eq!(period_words(&vec![]), "all");
    assert_eq!(period_words(&vec!["last".to_string(), "friday".to_string()]), "last friday");
    assert_eq!(classify_period("all"), StatsPeriod::All);
    assert_eq!(classify_period(" today "), StatsPeriod::Today);
    assert_eq!(classify_period("week"), StatsPeriod::Week);
    assert_eq!(classify_period("month"), StatsPeriod::Month);
    assert_eq!(classify_period("year"), StatsPeriod::Year);
    assert_eq!(classify_period("last friday"), StatsPeriod::Date);
    assert_eq!(period_days(&StatsPeriod::Week), Some((-7, 0)));
    assert_eq!(period_days(&StatsPeriod::Today), Some((0, 1)));
    assert_eq!(period_days(&StatsPeriod::Date), None);
}

#[test]
fn stats_json_joins_sequences() {
    let top = vec![(vec!["git add".to_string(), "git commit".to_string()], 4usize), (vec!["ls".to_string()], 2)];
    let j = stats_json("all".to_string(), 10, 3, &top, 2);
    assert_eq!(j.top[0].command, "git add | git commit");
    assert_eq!(j.top[0].count, 4);
    assert_eq!(j.top[1].command, "ls");
    assert_eq!(j.total_commands, 10);
}

// ---------------------------------------------------------------- import

#[test]
fn suffix_test() {
    assert!(ends_with("/bin/zsh", "/zsh"));
    assert!(!ends_with("zsh", "/zsh"));
    assert!(ends_with("abc", ""));
}

#[test]
fn shell_detection() {
    let d = |win, ps, x: Option<&str>, sh: Option<&str>, zdb, ndb| detect_shell(win, ps, x, sh, zdb, ndb);
    assert!(matches!(d(true, true, None, None, false, false), Detected::Importer(ShellCmd::Powershell)));
    assert!(matches!(d(true, false, None, Some("/bin/zsh"), false, false), Detected::NoShell));
    assert!(matches!(d(false, false, Some("/h/HIST.JSON"), Some("/bin/zsh"), false, false), Detected::Importer(ShellCmd::Xonsh)));
    assert!(matches!(d(false, false, Some("/h/x.sqlite"), None, false, false), Detected::Importer(ShellCmd::XonshSqlite)));
    assert!(matches!(d(false, false, None, Some("/bin/zsh"), true, false), Detected::Importer(ShellCmd::ZshHistDb)));
    assert!(matches!(d(false, false, None, Some("/bin/zsh"), false, false), Detected::Importer(ShellCmd::Zsh)));
    assert!(matches!(d(false, false, None, Some("/usr/bin/fish"), false, false), Detected::Importer(ShellCmd::Fish)));
    assert!(matches!(d(false, false, None, Some("/bin/bash"), false, false), Detected::Importer(ShellCmd::Bash)));
    assert!(matches!(d(false, false, None, Some("/bin/nu"), true, true), Detected::Importer(ShellCmd::NuHistDb)));
    assert!(matches!(d(false, false, None, Some("/bin/nu"), false, false), Detected::Importer(ShellCmd::Nu)));
    assert!(matches!(d(false, false, None, Some("/bin/pwsh"), false, false), Detected::Importer(ShellCmd::Powershell)));
    match d(false, false, None, None, false, false) {
        Detected::Unsupported(s) => assert_eq!(s, "NO_SHELL"),
        other => panic!("unexpected {:?}", other),
    }
    match choose_importer(false, false, "", "/bin/tcsh", false, false) {
        Detected::Unsupported(s) => assert_eq!(s, "/bin/tcsh"),
        other => panic!("unexpected {:?}", other),
    }
}

#[test]
fn import_reports() {
    let ok = ImportResultJson::success("zsh", 10, 9);
    assert_eq!(ok.status, "success");
    assert_eq!(ok.source, "zsh");
    assert_eq!(ok.entries_found, 10);
    assert_eq!(ok.entries_imported, 9);
    assert!(ok.error.is_none() && ok.source_path.is_none());
    let none = ImportResultJson::failure(&Detected::NoShell).unwrap();
    assert_eq!(none.status, "error");
    assert_eq!(none.source, "unknown");
    assert_eq!(none.error, Some("Could not detect the current shell".to_string()));
    let un = ImportResultJson::failure(&Detected::Unsupported("/bin/tcsh".to_string())).unwrap();
    assert_eq!(un.source, "/bin/tcsh");
    assert_eq!(un.error, Some("cannot import /bin/tcsh history".to_string()));
    assert!(ImportResultJson::failure(&Detected::Importer(ShellCmd::Zsh)).is_none());
    assert_eq!(unsupported_text("sh"), "cannot import sh history");
}

#[test]
fn importer_saves_full_batches_in_order() {
    let mut imp: HistoryImporter<u32> = HistoryImporter::new();
    let mut saved: Vec<u32> = Vec::new();
    let mut batches = 0;
    for i in 0..250u32 {
        if let Some(batch) = imp.push(i) {
            assert_eq!(batch.len(), BATCH_SIZE);
            batches += 1;
            saved.extend(batch);
        }
    }
    assert_eq!(batches, 2);
    assert_eq!(imp.get_imported_count(), 250);
    let (rest, count) = imp.flush();
    assert_eq!(rest.len(), 50);
    assert_eq!(count, 250);
    saved.extend(rest);
    assert_eq!(saved, (0..250).collect::<Vec<u32>>());
}

// ---------------------------------------------------------------- sync

#[test]
fn store_init_when_index_has_more() {
    assert!(store_init_needed(5, 3));
    assert!(!store_init_needed(3, 3));
    assert!(!store_init_needed(0, 0));
    assert!(store_init_needed(-1, u64::MAX - 1));
}

#[test]
fn totals_add_up() {
    assert_eq!(sync_totals((3, 4), None), (3, 4));
    assert_eq!(sync_totals((3, 4), Some((2, 1))), (5, 5));
}

#[test]
fn sync_report() {
    let r = SyncResultJson::success(3, 4, 100, 90, true, false);
    assert_eq!(r.status, "success");
    assert_eq!(r.uploaded, 3);
    assert_eq!(r.downloaded, 4);
    assert_eq!(r.history_count, 100);
    assert_eq!(r.store_history_count, 90);
    assert!(r.store_init_triggered && !r.force && r.error.is_none());
}

#[test]
fn key_as_words() {
    let zero16 = [0u8; 16];
    assert_eq!(
        key_mnemonic(&zero16),
        Ok("abandon abandon abandon abandon abandon abandon abandon abandon abandon abandon abandon about".to_string())
    );
    let zero32 = [0u8; 32];
    let words = key_mnemonic(&zero32).unwrap();
    assert_eq!(words.split(' ').count(), 24);
    assert!(words.ends_with(" art"));
    assert_eq!(key_mnemonic(&[0u8; 15]), Err("invalid key".to_string()));
    assert_eq!(key_mnemonic(&[0u8; 36]), Err("invalid key".to_string()));
}

// ---------------------------------------------------------------- store status

#[test]
fn uuid_text() {
    assert_eq!(uuid_hyphenated(0x0123456789abcdef0123456789abcdef), "01234567-89ab-cdef-0123-456789abcdef");
    assert_eq!(uuid_hyphenated(0), "00000000-0000-0000-0000-000000000000");
}

#[test]
fn store_status_sorted_and_marked() {
    let hosts = vec![
        HostStatus {
            id: 2,
            tags: vec![
                TagStatus { name: "kv".to_string(), idx: 1, first: None, last: None },
                TagStatus {
                    name: "history".to_string(),
                    idx: 7,
                    first: Some(RecordRef { id: 0xa, timestamp: 0 }),
                    last: Some(RecordRef { id: 0xb, timestamp: 1_000_000_000 }),
                },
            ],
        },
        HostStatus { id: 1, tags: vec![] },
    ];
    let status = (StoreCmd::Status { json: true }).status(&hosts, 2);
    assert_eq!(status.hosts.len(), 2);
    assert_eq!(status.hosts[0].id, "00000000-0000-0000-0000-000000000001");
    assert!(!status.hosts[0].is_current);
    assert_eq!(status.hosts[1].id, "00000000-0000-0000-0000-000000000002");
    assert!(status.hosts[1].is_current);
    let tags = &status.hosts[1].tags;
    assert_eq!(tags[0].name, "history");
    assert_eq!(tags[0].idx, 7);
    let first = tags[0].first.as_ref().unwrap();
    assert_eq!(first.id, "00000000-0000-0000-0000-00000000000a");
    assert_eq!(first.created, "1970-01-01T00:00:00Z");
    assert_eq!(tags[0].last.as_ref().unwrap().created, "1970-01-01T00:00:01Z");
    assert_eq!(tags[1].name, "kv");
    assert!(tags[1].first.is_none());
}

// ---------------------------------------------------------------- tree text and replay

#[test]
fn tree_drawn_as_text() {
    let mut db = MemoryStore::new();
    let r = memory("root", None);
    let c1 = memory("child 1", Some(&r.id));
    let g = memory("grand", Some(&c1.id));
    let c2 = memory("child 2", Some(&r.id));
    for m in [&r, &c1, &g, &c2] {
        db.create(m).unwrap();
    }
    db.link_command(&c1.id, "h").unwrap();
    let ms = vec![r.copy(), c1.copy(), g.copy(), c2.copy()];
    let lines = (Cmd::Tree { root: None, depth: 10, json: false }).print_tree(&db, &ms);
    let expected = vec![
        format!("└── {} (0 commands)", r.id),
        "    root".to_string(),
        format!("    ├── {} (1 commands)", c1.id),
        "    │    child 1".to_string(),
        format!("    │   └── {} (0 commands)", g.id),
        "    │    grand".to_string(),
        format!("    └── {} (0 commands)", c2.id),
        "    child 2".to_string(),
    ];
    assert_eq!(lines, expected);
}

#[test]
fn decimal_text_of_counts() {
    assert_eq!(usize_text(0), "0");
    assert_eq!(usize_text(7), "7");
    assert_eq!(usize_text(1200), "1200");
    assert_eq!(usize_text(usize::MAX), usize::MAX.to_string());
}

#[test]
fn replay_steps() {
    let opts = |dry_run, interactive, keep_going, here| ReplayOptions { dry_run, interactive, keep_going, here };
    assert_eq!(opts(true, true, false, false).step(ReplayEvent::Shown), ReplayAction::SkipDryRun);
    assert_eq!(opts(false, true, false, false).step(ReplayEvent::Shown), ReplayAction::Ask);
    assert_eq!(opts(false, false, false, false).step(ReplayEvent::Shown), ReplayAction::Execute);
    let o = opts(false, true, false, false);
    assert_eq!(o.step(ReplayEvent::Answered(RunAnswer::Abort)), ReplayAction::Abort);
    assert_eq!(o.step(ReplayEvent::Answered(RunAnswer::Skip)), ReplayAction::Skip);
    assert_eq!(o.step(ReplayEvent::Answered(RunAnswer::Run)), ReplayAction::Execute);
    assert_eq!(o.step(ReplayEvent::Ran(CommandOutcome::Succeeded)), ReplayAction::Next);
    assert_eq!(o.step(ReplayEvent::Ran(CommandOutcome::Exited(Some(2)))), ReplayAction::FailExit(2));
    assert_eq!(o.step(ReplayEvent::Ran(CommandOutcome::Exited(None))), ReplayAction::FailExit(-1));
    assert_eq!(o.step(ReplayEvent::Ran(CommandOutcome::NotStarted)), ReplayAction::FailStart);
    let k = opts(false, false, true, true);
    assert_eq!(k.step(ReplayEvent::Ran(CommandOutcome::Exited(Some(2)))), ReplayAction::Next);
    assert_eq!(k.step(ReplayEvent::Ran(CommandOutcome::NotStarted)), ReplayAction::Next);
    assert_eq!(k.run_directory("/here", "/there"), "/here");
    assert_eq!(o.run_directory("/here", "/there"), "/there");
}

#[test]
fn signed_decimal_text() {
    assert_eq!(i64_text(0), "0");
    assert_eq!(i64_text(-1), "-1");
    assert_eq!(i64_text(5000), "5000");
    assert_eq!(i64_text(i64::MIN), i64::MIN.to_string());
    assert_eq!(i64_text(i64::MAX), i64::MAX.to_string());
}

#[test]
fn show_report_lines() {
    let mut m = memory("fixed the build", Some("parent-1"));
    m.created_at = 0;
    m.repo_root = Some("/src/proj".to_string());
    m.git_branch = Some("main".to_string());
    m.agent_id = Some("agent-7".to_string());
    let cmds = vec![
        LinkedCommandJson {
            history_id: "h1".to_string(),
            command: "ls".to_string(),
            cwd: "/tmp".to_string(),
            exit: 0,
            duration: 10,
            timestamp: "t".to_string(),
        },
        LinkedCommandJson {
            history_id: "h2".to_string(),
            command: "false".to_string(),
            cwd: "/w".to_string(),
            exit: 1,
            duration: -5,
            timestamp: "t".to_string(),
        },
    ];
    let lines = show_lines(&m, &cmds);
    let expected = vec![
        format!("Memory: {}", m.id),
        "Created: 1970-01-01T00:00:00Z by agent-7".to_string(),
        "Repo: /src/proj (main @ unknown)".to_string(),
        "Parent: parent-1".to_string(),
        String::new(),
        "Description:".to_string(),
        "  fixed the build".to_string(),
        String::new(),
        "Linked commands (2):".to_string(),
        "  [0] ✓ ls".to_string(),
        "      /tmp (10ms, exit 0)".to_string(),
        "  [1] ✗ false".to_string(),
        "      /w (-5ms, exit 1)".to_string(),
    ];
    assert_eq!(lines, expected);
    let mut bare = memory("bare", None);
    bare.created_at = 0;
    let lines = show_lines(&bare, &vec![]);
    assert_eq!(lines.len(), 7);
    assert_eq!(lines[1], "Created: 1970-01-01T00:00:00Z");
    assert_eq!(lines[6], "Linked commands (0):");
}

#[test]
fn tree_started_below_a_root() {
    let mut db = MemoryStore::new();
    let r = memory("root", None);
    let c = memory("child", Some(&r.id));
    let g = memory("grand", Some(&c.id));
    for m in [&r, &c, &g] {
        db.create(m).unwrap();
    }
    let cmd = Cmd::Tree { root: Some(c.id.clone()), depth: 10, json: true };
    let listed = db.get_tree(Some(&c.id), Some(10));
    assert_eq!(listed.len(), 2);
    let forest = cmd.build_tree_json(&db, &listed);
    assert_eq!(forest.len(), 1);
    assert_eq!(forest[0].memory.id, c.id);
    assert_eq!(forest[0].children.len(), 1);
    assert_eq!(forest[0].children[0].memory.id, g.id);
    let lines = cmd.print_tree(&db, &listed);
    assert_eq!(lines.len(), 4);
    assert_eq!(lines[0], format!("└── {} (0 commands)", c.id));
    assert_eq!(lines[2], format!("    └── {} (0 commands)", g.id));
}

#[test]
fn unset_xonsh_file_picks_no_xonsh() {
    assert!(matches!(
        detect_shell(false, false, None, Some("/bin/bash"), false, false),
        Detected::Importer(ShellCmd::Bash)
    ));
    assert!(matches!(
        detect_shell(false, false, Some(""), Some("/bin/bash"), false, false),
        Detected::Importer(ShellCmd::Bash)
    ));
}

#[test]
fn detection_messages() {
    assert_eq!(detected_text(ShellCmd::Zsh, ""), "Detected ZSH");
    assert_eq!(detected_text(ShellCmd::XonshSqlite, ""), "Detected Xonsh (SQLite backend)");
    assert_eq!(detected_text(ShellCmd::ZshHistDb, "/h/.histdb/zsh-history.db"), "Detected Zsh-HistDb, using :/h/.histdb/zsh-history.db");
    assert_eq!(detected_text(ShellCmd::NuHistDb, "/n.db"), "Detected Nu-HistDb, using :/n.db");
    assert_eq!(detected_text(ShellCmd::Powershell, ""), "Detected PowerShell");
}

#[test]
fn text_equality() {
    assert!(str_eq("abc", "abc"));
    assert!(!str_eq("abc", "abd"));
    assert!(!str_eq("ab", "abc"));
    assert!(str_eq("", ""));
    assert!(str_eq("ünï", "ünï"));
}

#[test]
fn stats_time_ranges() {
    const DAY: i128 = 86_400_000_000_000;
    let now: i64 = 1_718_454_600_000_000_000; // 2024-06-15T12:30:00Z
    let midnight: i128 = 1_718_409_600_000_000_000;
    assert_eq!(stats_range("all", now, 0, false), PeriodRange::Everything);
    assert_eq!(stats_range("today", now, 0, false), PeriodRange::Between(midnight, midnight + DAY));
    assert_eq!(stats_range(" week", now, 0, false), PeriodRange::Between(midnight - 7 * DAY, midnight));
    assert_eq!(stats_range("month", now, 0, false), PeriodRange::Between(midnight - 31 * DAY, midnight));
    assert_eq!(stats_range("year", now, 0, false), PeriodRange::Between(midnight - 365 * DAY, midnight));
    // one hour east of UTC the local midnight is an hour earlier
    let east: i128 = midnight - 3_600_000_000_000;
    assert_eq!(stats_range("today", now, 3600, false), PeriodRange::Between(east, east + DAY));
    // before the epoch
    assert_eq!(stats_range("today", -1, 0, false), PeriodRange::Between(-DAY, 0));
    assert_eq!(stats_range("qqq zzz xyzzy", now, 0, false), PeriodRange::Unreadable);
    match stats_range("2024-01-01", now, 0, false) {
        PeriodRange::Between(a, b) => {
            assert_eq!(a, 1_704_067_200_000_000_000);
            assert_eq!(b - a, DAY);
        }
        other => panic!("unexpected {:?}", other),
    }
}

#[test]
fn memory_database_beside_history() {
    assert_eq!(
        memory_db_path("/home/u/.local/share/atuin/history.db", Some("/data")),
        "/home/u/.local/share/atuin/memory.db"
    );
    assert_eq!(memory_db_path("history.db", Some("/data")), "memory.db");
    assert_eq!(memory_db_path("/", Some("/data")), "/data/memory.db");
    assert_eq!(memory_db_path("", None), "./memory.db");
}

#[test]
fn memory_at_a_given_instant() {
    let m = Memory::new_at(
        "d".to_string(),
        "/w".to_string(),
        None,
        None,
        None,
        None,
        None,
        1_718_454_600_000_000_000,
    );
    assert_eq!(m.created_at, 1_718_454_600_000_000_000);
    assert_eq!(m.id.len(), 32);
    let wrapped = Memory::new_at("d".to_string(), "/w".to_string(), None, None, None, None, None, 1i128 << 64);
    assert_eq!(wrapped.created_at, 0);
}
