//! The `memory` command: its arguments, the JSON it prints, and the
//! decisions it makes between reading and writing.
use vstd::prelude::*;
use crate::memory::{
    Memory, MemoryView, MemoryJson, MemoryJsonView, MemoryCreateJson, MemoryTreeNode, copy_opt, json_of,
    repo_of, repo_of_root, created_at_text, created_text,
};
use crate::database::{
    command_search_result, commands_view, search_result, opt_str,
    MemoryStore, MemoryError, MemoryErrorView, StoreView, create_check, inserted, with_link, ids, deleted,
};
use crate::order::{RowKey, select_rows, is_ordered_selection, precedes};
use crate::tree::{nodes_view, forest, command_count, build_forest};
use crate::text::{trim_text, to_lowercase, unicode_lowercase, trimmed, str_eq, decimal_text, signed_text, usize_text, i64_text};
use crate::tree_text::{lines_view, lemma_lines_push};

verus! {

/// JSON output for a linked command with full details
pub struct LinkedCommandJson {
    pub history_id: String,
    pub command: String,
    pub cwd: String,
    pub exit: i64,
    pub duration: i64,
    pub timestamp: String,
}

/// JSON output for memory show
pub struct MemoryShowJson {
    pub id: String,
    pub description: String,
    pub cwd: String,
    pub repo: Option<String>,
    pub branch: Option<String>,
    pub commit: Option<String>,
    pub agent_id: Option<String>,
    pub parent_memory_id: Option<String>,
    pub created_at: String,
    pub linked_commands: Vec<LinkedCommandJson>,
}

/// The `memory` family of commands.
pub enum Cmd {
    /// Create a new memory with a description
    Create {
        /// The description of what was done
        description: String,
        /// Link the last N commands from history
        link_last: Option<usize>,
        /// Link specific history IDs
        link: Vec<String>,
        /// Parent memory ID (can also be set via ATUIN_PARENT_MEMORY_ID env var)
        parent: Option<String>,
        /// Output in JSON format
        json: bool,
    },
    /// List memories
    List {
        /// Filter by current git repository
        repo: bool,
        /// Filter by current working directory
        cwd: bool,
        /// Filter by agent ID
        agent: Option<String>,
        /// Limit number of results
        limit: Option<usize>,
        /// Output in JSON format
        json: bool,
    },
    /// Search memories by description
    Search {
        /// Search query
        query: String,
        /// Search memories with linked commands matching this pattern
        command_pattern: Option<String>,
        /// Scope to current git repository
        repo: bool,
        /// Output in JSON format
        json: bool,
    },
    /// Show details of a specific memory
    Show {
        /// Memory ID
        id: String,
        /// Output in JSON format
        json: bool,
    },
    /// Link more commands to an existing memory
    Link {
        /// Memory ID
        id: String,
        /// History IDs to link
        history_id: Vec<String>,
        /// Link the last N commands from history
        last: Option<usize>,
    },
    /// Delete a memory
    Delete {
        /// Memory ID
        id: String,
    },
    /// Show children of a memory
    Children {
        /// Memory ID
        id: String,
        /// Output in JSON format
        json: bool,
    },
    /// Show ancestors (parent chain to root)
    Ancestors {
        /// Memory ID
        id: String,
        /// Output in JSON format
        json: bool,
    },
    /// Show memory hierarchy as a tree
    Tree {
        /// Root memory ID (shows all roots if not specified)
        root: Option<String>,
        /// Maximum depth to traverse
        depth: usize,
        /// Output in JSON format
        json: bool,
    },
    /// Re-run the commands linked to a memory
    Run {
        /// Memory ID
        id: String,
        /// Preview commands without executing
        dry_run: bool,
        /// Confirm each command before running
        interactive: bool,
        /// Continue running even if a command fails
        keep_going: bool,
        /// Run all commands in current directory instead of their original cwd
        here: bool,
    },
}

impl Cmd {
    /// The memories as a forest of JSON nodes: those whose parent is not
    /// among them (a tree started at a given memory has that memory at the
    /// top) at the top, each memory under its parent, in the order given,
    /// each with the number of history entries linked to it.
    pub fn build_tree_json(&self, store: &MemoryStore, memories: &Vec<Memory>) -> (res: Vec<MemoryTreeNode>)
        ensures
            nodes_view(res@) == forest(store@, memories@.map_values(|m: Memory| m@)),
    {
        build_forest(store, memories)
    }
}

/// The parent of a new memory: the one given on the command line, else the
/// one from the environment.
pub fn resolve_parent(parent: Option<&str>, env_parent: Option<String>) -> (res: Option<String>)
    ensures
        res.deep_view() == match parent {
            Some(p) => Some(p@),
            None => env_parent.deep_view(),
        },
{
    match parent {
        Some(p) => Some(String::from_str(p)),
        None => env_parent,
    }
}

/// The JSON report of a created memory.
pub fn create_json(
    memory: &Memory,
    commands_linked: usize,
    repo_root: &Option<String>,
    git_branch: Option<String>,
    git_commit: Option<String>,
) -> (res: MemoryCreateJson)
    ensures
        res.id@ == memory.id@,
        res.description@ == memory.description@,
        res.commands_linked == commands_linked,
        res.repo.deep_view() == repo_of(repo_root.deep_view()),
        res.branch.deep_view() == git_branch.deep_view(),
        res.commit.deep_view() == git_commit.deep_view(),
        res.parent_memory_id.deep_view() == memory.parent_memory_id.deep_view(),
{
    MemoryCreateJson {
        id: memory.id.clone(),
        description: memory.description.clone(),
        commands_linked,
        repo: repo_of_root(repo_root),
        branch: git_branch,
        commit: git_commit,
        parent_memory_id: copy_opt(&memory.parent_memory_id),
    }
}

/// The store after linking each history entry of `hids` to memory `mid`, in order.
pub open spec fn with_links(s: StoreView, mid: Seq<char>, hids: Seq<Seq<char>>) -> StoreView
    decreases hids.len(),
{
    if hids.len() == 0 {
        s
    } else {
        with_link(with_links(s, mid, hids.drop_last()), mid, hids.last())
    }
}

/// Links every entry of `history_ids` to an existing memory; the count of
/// links made (a link that existed already counts too).
fn link_all(store: &mut MemoryStore, memory_id: &str, history_ids: &Vec<String>, count: usize) -> (res: usize)
    requires
        old(store).wf(),
        ids(old(store)@.memories).contains(memory_id@),
        count + history_ids.len() <= usize::MAX,
    ensures
        final(store).wf(),
        final(store)@.memories == old(store)@.memories,
        final(store)@ == with_links(old(store)@, memory_id@, history_ids@.map_values(|h: String| h@)),
        res == count + history_ids.len(),
{
    let ghost start = store@;
    let ghost hv = history_ids@.map_values(|h: String| h@);
    let mut n = count;
    let mut k: usize = 0;
    while k < history_ids.len()
        invariant
            store.wf(),
            store@.memories == start.memories,
            ids(start.memories).contains(memory_id@),
            hv == history_ids@.map_values(|h: String| h@),
            k <= history_ids.len(),
            n == count + k,
            count + history_ids.len() <= usize::MAX,
            store@ == with_links(start, memory_id@, hv.take(k as int)),
        decreases history_ids.len() - k,
    {
        let r = store.link_command(memory_id, history_ids[k].as_str());
        assert(hv.take(k + 1).drop_last() =~= hv.take(k as int));
        assert(hv.take(k + 1).last() == history_ids@[k as int]@);
        n = n + 1;
        k = k + 1;
    }
    assert(hv.take(history_ids.len() as int) =~= hv);
    n
}

/// Creating a memory and linking history to it: the memory is created,
/// then the entries of `link_ids`, then those of `recent_ids` (the most
/// recent history), are linked to it. The result is the number of links
/// made; creation fails as [`MemoryStore::create`] does.
pub fn create_memory(
    store: &mut MemoryStore,
    memory: &Memory,
    link_ids: &Vec<String>,
    recent_ids: &Vec<String>,
) -> (res: Result<usize, MemoryError>)
    requires
        old(store).wf(),
        link_ids.len() + recent_ids.len() <= usize::MAX,
    ensures
        final(store).wf(),
        match create_check(old(store)@, memory@) {
            Some(e) => (res matches Err(err) && err@ == e) && final(store)@ == old(store)@,
            None => res == Ok::<usize, MemoryError>((link_ids.len() + recent_ids.len()) as usize)
                && final(store)@ == with_links(
                    inserted(old(store)@, memory@),
                    memory.id@,
                    link_ids@.map_values(|h: String| h@) + recent_ids@.map_values(|h: String| h@),
                ),
        },
{
    store.create(memory)?;
    let ghost after_create = store@;
    proof {
        assert(after_create.memories.drop_last() =~= old(store)@.memories);
        assert(ids(after_create.memories).contains(memory.id@));
    }
    let n = link_all(store, memory.id.as_str(), link_ids, 0);
    let ghost mid = store@;
    let n = link_all(store, memory.id.as_str(), recent_ids, n);
    proof {
        lemma_with_links_concat(
            after_create,
            memory.id@,
            link_ids@.map_values(|h: String| h@),
            recent_ids@.map_values(|h: String| h@),
        );
    }
    Ok(n)
}

proof fn lemma_with_links_concat(s: StoreView, mid: Seq<char>, a: Seq<Seq<char>>, b: Seq<Seq<char>>)
    ensures
        with_links(s, mid, a + b) == with_links(with_links(s, mid, a), mid, b),
    decreases b.len(),
{
    if b.len() == 0 {
        assert(a + b =~= a);
    } else {
        lemma_with_links_concat(s, mid, a, b.drop_last());
        assert((a + b).drop_last() =~= a + b.drop_last());
        assert((a + b).last() == b.last());
    }
}

/// Linking more history to an existing memory: the entries of
/// `history_ids`, then those of `recent_ids`. The result is the number of
/// links made; the memory must exist.
pub fn link_memory(
    store: &mut MemoryStore,
    memory_id: &str,
    history_ids: &Vec<String>,
    recent_ids: &Vec<String>,
) -> (res: Result<usize, MemoryError>)
    requires
        old(store).wf(),
        history_ids.len() + recent_ids.len() <= usize::MAX,
    ensures
        final(store).wf(),
        !ids(old(store)@.memories).contains(memory_id@) ==> (res matches Err(e)
            && e@ == MemoryErrorView::MemoryNotFound(memory_id@)) && final(store)@ == old(store)@,
        ids(old(store)@.memories).contains(memory_id@) ==> res == Ok::<usize, MemoryError>(
            (history_ids.len() + recent_ids.len()) as usize)
            && final(store)@ == with_links(
                old(store)@,
                memory_id@,
                history_ids@.map_values(|h: String| h@) + recent_ids@.map_values(|h: String| h@),
            ),
{
    if !store.memory_exists(memory_id) {
        return Err(MemoryError::MemoryNotFound(String::from_str(memory_id)));
    }
    let ghost before = store@;
    let n = link_all(store, memory_id, history_ids, 0);
    let n = link_all(store, memory_id, recent_ids, n);
    proof {
        lemma_with_links_concat(
            before,
            memory_id@,
            history_ids@.map_values(|h: String| h@),
            recent_ids@.map_values(|h: String| h@),
        );
    }
    Ok(n)
}

/// Deleting a memory that must exist.
pub fn delete_memory(store: &mut MemoryStore, id: &str) -> (res: Result<(), MemoryError>)
    requires
        old(store).wf(),
    ensures
        final(store).wf(),
        !ids(old(store)@.memories).contains(id@) ==> (res matches Err(e) && e@ == MemoryErrorView::MemoryNotFound(id@))
            && final(store)@ == old(store)@,
        ids(old(store)@.memories).contains(id@) ==> res is Ok && final(store)@ == deleted(old(store)@, id@),
{
    if !store.memory_exists(id) {
        return Err(MemoryError::MemoryNotFound(String::from_str(id)));
    }
    store.delete(id);
    Ok(())
}

/// The JSON summaries of memories, each with the number of history entries
/// linked to it in the store.
pub fn summaries(store: &MemoryStore, memories: &Vec<Memory>) -> (res: Vec<MemoryJson>)
    ensures
        res@.len() == memories@.len(),
        forall|k: int| 0 <= k < memories@.len() ==> (#[trigger] res@[k])@ == json_of(
            memories@[k]@,
            command_count(store@, memories@[k].id@),
        ),
{
    let mut res: Vec<MemoryJson> = Vec::new();
    let mut k: usize = 0;
    while k < memories.len()
        invariant
            k <= memories.len(),
            res@.len() == k,
            forall|q: int| 0 <= q < k ==> (#[trigger] res@[q])@ == json_of(
                memories@[q]@,
                command_count(store@, memories@[q].id@),
            ),
        decreases memories.len() - k,
    {
        let mut json = MemoryJson::from(&memories[k]);
        json.commands_count = store.get_linked_command_count(memories[k].id.as_str());
        res.push(json);
        k = k + 1;
    }
    res
}

/// The JSON report of one memory with the details of its linked commands.
pub fn show_json(memory: &Memory, linked_commands: Vec<LinkedCommandJson>) -> (res: MemoryShowJson)
    ensures
        res.id@ == memory.id@,
        res.description@ == memory.description@,
        res.cwd@ == memory.cwd@,
        res.repo.deep_view() == repo_of(memory.repo_root.deep_view()),
        res.branch.deep_view() == memory.git_branch.deep_view(),
        res.commit.deep_view() == memory.git_commit.deep_view(),
        res.agent_id.deep_view() == memory.agent_id.deep_view(),
        res.parent_memory_id.deep_view() == memory.parent_memory_id.deep_view(),
        res.created_at@ == created_text(memory.created_at),
        res.linked_commands == linked_commands,
{
    MemoryShowJson {
        id: memory.id.clone(),
        description: memory.description.clone(),
        cwd: memory.cwd.clone(),
        repo: repo_of_root(&memory.repo_root),
        branch: copy_opt(&memory.git_branch),
        commit: copy_opt(&memory.git_commit),
        agent_id: copy_opt(&memory.agent_id),
        parent_memory_id: copy_opt(&memory.parent_memory_id),
        created_at: created_at_text(memory.created_at),
        linked_commands,
    }
}

/// What to do with a command when replaying interactively.
#[derive(Debug, Clone, Copy, PartialEq, Eq, Structural)]
pub enum RunAnswer {
    /// Run it
    Run,
    /// Skip it
    Skip,
    /// Stop replaying
    Abort,
}

/// The answer a line of input gives.
pub open spec fn answer_of(input: Seq<char>) -> RunAnswer {
    let a = unicode_lowercase(trimmed(input));
    if a == seq!['q'] {
        RunAnswer::Abort
    } else if a == seq!['n'] {
        RunAnswer::Skip
    } else {
        RunAnswer::Run
    }
}

/// The answer to "Run this command? [Y/n/q]": the input without surrounding
/// white space and in lower case is `q` to stop, `n` to skip; anything else
/// runs the command.
pub fn read_answer(input: &str) -> (res: RunAnswer)
    ensures
        res == answer_of(input@),
{
    proof {
        reveal_strlit("q");
        reveal_strlit("n");
        assert("q"@ =~= seq!['q']);
        assert("n"@ =~= seq!['n']);
    }
    let t = trim_text(input);
    let a = to_lowercase(t.as_str());
    if str_eq(a.as_str(), "q") {
        RunAnswer::Abort
    } else if str_eq(a.as_str(), "n") {
        RunAnswer::Skip
    } else {
        RunAnswer::Run
    }
}

/// The order in which to replay commands: oldest first by timestamp, and
/// in the order given among commands with equal timestamps.
pub fn replay_order(timestamps: &Vec<i64>) -> (res: Vec<usize>)
    ensures
        res.len() == timestamps.len(),
        forall|k: int| 0 <= k < res.len() ==> #[trigger] res[k] < timestamps.len(),
        forall|i: usize| i < timestamps.len() ==> res@.contains(i),
        forall|k: int, l: int| 0 <= k < l < res.len() ==> {
            ||| timestamps[#[trigger] res[k] as int] < timestamps[#[trigger] res[l] as int]
            ||| timestamps[res[k] as int] == timestamps[res[l] as int] && res[k] < res[l]
        },
{
    let n = timestamps.len();
    let mut keys: Vec<RowKey> = Vec::new();
    let mut i: usize = 0;
    while i < n
        invariant
            n == timestamps.len(),
            i <= n,
            keys.len() == i,
            forall|j: int| 0 <= j < i ==> (#[trigger] keys@[j]) == (RowKey { selected: true, group: 0, created_at: timestamps[j] }),
        decreases n - i,
    {
        keys.push(RowKey { selected: true, group: 0, created_at: timestamps[i] });
        i = i + 1;
    }
    let newest = select_rows(&keys, None);
    // newest first, later positions first among equals: the reverse order
    let mut res: Vec<usize> = Vec::new();
    let mut k: usize = newest.len();
    while k > 0
        invariant
            k <= newest.len(),
            res.len() == newest.len() - k,
            forall|q: int| 0 <= q < res.len() ==> res[q] == newest[newest.len() - 1 - q],
        decreases k,
    {
        k = k - 1;
        res.push(newest[k]);
    }
    proof {
        let m = newest.len() as int;
        assert(is_ordered_selection(keys@, None, newest@));
        assert forall|j: int| #![trigger keys@[j]] 0 <= j < n implies newest@.contains(j as usize) by {
            assert(keys@[j].selected);
        }
        assert(newest@.no_duplicates()) by {
            assert forall|a: int, b: int| 0 <= a < m && 0 <= b < m && a != b implies newest@[a] != newest@[b] by {
                if a < b {
                    assert(precedes(keys@, newest@[a] as int, newest@[b] as int));
                } else {
                    assert(precedes(keys@, newest@[b] as int, newest@[a] as int));
                }
            }
        }
        assert forall|q: int| 0 <= q < m implies #[trigger] newest@[q] < n by {}
        crate::order::lemma_distinct_below(newest@, n as int);
        assert forall|j: usize| j < n implies newest@.contains(j) by {
            assert(keys@[j as int].selected);
            assert(newest@.contains(j as int as usize));
        }
        crate::order::lemma_covering_len(newest@, n as int);
        assert forall|k: int| 0 <= k < res.len() implies #[trigger] res[k] < timestamps.len() by {
            assert(res[k] == newest[m - 1 - k]);
        }
        assert forall|i: usize| i < timestamps.len() implies res@.contains(i) by {
            assert(keys@[i as int].selected);
            assert(newest@.contains(i as int as usize));
            let q = choose|q: int| 0 <= q < m && newest@[q] == i;
            assert(res@[m - 1 - q] == newest@[q]);
        }
        assert forall|k: int, l: int| 0 <= k < l < res.len() implies {
            ||| timestamps[#[trigger] res[k] as int] < timestamps[#[trigger] res[l] as int]
            ||| timestamps[res[k] as int] == timestamps[res[l] as int] && res[k] < res[l]
        } by {
            assert(res[k] == newest[m - 1 - k] && res[l] == newest[m - 1 - l]);
            assert(precedes(keys@, newest@[m - 1 - l] as int, newest@[m - 1 - k] as int));
        }
    }
    res
}

/// The options of a replay.
pub struct ReplayOptions {
    /// Preview commands without executing
    pub dry_run: bool,
    /// Confirm each command before running
    pub interactive: bool,
    /// Continue running even if a command fails
    pub keep_going: bool,
    /// Run all commands in current directory instead of their original cwd
    pub here: bool,
}

/// How running one command went.
#[derive(Debug, Clone, Copy, PartialEq, Eq, Structural)]
pub enum CommandOutcome {
    /// It exited with status 0.
    Succeeded,
    /// It exited otherwise, with this code, or without one (killed by a signal).
    Exited(Option<i32>),
    /// It could not be started.
    NotStarted,
}

/// Where the replay of one command stands: just shown, answered at the
/// prompt, or run.
#[derive(Debug, Clone, Copy, PartialEq, Eq, Structural)]
pub enum ReplayEvent {
    Shown,
    Answered(RunAnswer),
    Ran(CommandOutcome),
}

/// What to do next.
#[derive(Debug, Clone, Copy, PartialEq, Eq, Structural)]
pub enum ReplayAction {
    /// Report the command as skipped by the dry run and go to the next one.
    SkipDryRun,
    /// Ask whether to run the command.
    Ask,
    /// Run the command.
    Execute,
    /// Report the command as skipped and go to the next one.
    Skip,
    /// Stop the replay, without error.
    Abort,
    /// Go to the next command.
    Next,
    /// Stop the replay: the command failed with this exit code.
    FailExit(i32),
    /// Stop the replay: the command could not be started.
    FailStart,
}

/// The decision after each event of a replay: a shown command is skipped in
/// a dry run, asked about when interactive, and run otherwise; the answer
/// `q` stops, `n` skips; a failed command stops the replay unless it keeps
/// going, a missing exit code counting as `-1`.
pub open spec fn replay_decision(opts: ReplayOptions, event: ReplayEvent) -> ReplayAction {
    match event {
        ReplayEvent::Shown => if opts.dry_run {
            ReplayAction::SkipDryRun
        } else if opts.interactive {
            ReplayAction::Ask
        } else {
            ReplayAction::Execute
        },
        ReplayEvent::Answered(a) => match a {
            RunAnswer::Abort => ReplayAction::Abort,
            RunAnswer::Skip => ReplayAction::Skip,
            RunAnswer::Run => ReplayAction::Execute,
        },
        ReplayEvent::Ran(o) => match o {
            CommandOutcome::Succeeded => ReplayAction::Next,
            CommandOutcome::Exited(code) => if opts.keep_going {
                ReplayAction::Next
            } else {
                ReplayAction::FailExit(
                    match code {
                        Some(c) => c,
                        None => -1i32,
                    },
                )
            },
            CommandOutcome::NotStarted => if opts.keep_going {
                ReplayAction::Next
            } else {
                ReplayAction::FailStart
            },
        },
    }
}

impl ReplayOptions {
    /// What to do after `event`.
    pub fn step(&self, event: ReplayEvent) -> (res: ReplayAction)
        ensures
            res == replay_decision(*self, event),
    {
        match event {
            ReplayEvent::Shown => if self.dry_run {
                ReplayAction::SkipDryRun
            } else if self.interactive {
                ReplayAction::Ask
            } else {
                ReplayAction::Execute
            },
            ReplayEvent::Answered(a) => match a {
                RunAnswer::Abort => ReplayAction::Abort,
                RunAnswer::Skip => ReplayAction::Skip,
                RunAnswer::Run => ReplayAction::Execute,
            },
            ReplayEvent::Ran(o) => match o {
                CommandOutcome::Succeeded => ReplayAction::Next,
                CommandOutcome::Exited(code) => if self.keep_going {
                    ReplayAction::Next
                } else {
                    ReplayAction::FailExit(
                        match code {
                            Some(c) => c,
                            None => -1i32,
                        },
                    )
                },
                CommandOutcome::NotStarted => if self.keep_going {
                    ReplayAction::Next
                } else {
                    ReplayAction::FailStart
                },
            },
        }
    }

    /// The directory a command runs in: the current one with `here`, else
    /// the one it was first run in.
    pub fn run_directory(&self, current_dir: &str, command_cwd: &str) -> (res: String)
        ensures
            res@ == if self.here {
                current_dir@
            } else {
                command_cwd@
            },
    {
        if self.here {
            String::from_str(current_dir)
        } else {
            String::from_str(command_cwd)
        }
    }
}

/// A dry run runs nothing: every command shown is skipped.
pub proof fn law_dry_run_runs_nothing(opts: ReplayOptions)
    requires
        opts.dry_run,
    ensures
        replay_decision(opts, ReplayEvent::Shown) == ReplayAction::SkipDryRun,
{
}

/// Outside a dry run, an interactive replay asks about every command it
/// shows and a plain one runs it, whatever `keep_going` and `here` are.
pub proof fn law_shown_command(opts: ReplayOptions)
    requires
        !opts.dry_run,
    ensures
        opts.interactive ==> replay_decision(opts, ReplayEvent::Shown) == ReplayAction::Ask,
        !opts.interactive ==> replay_decision(opts, ReplayEvent::Shown) == ReplayAction::Execute,
{
}

/// The answer at the prompt decides alone: `q` stops the replay without
/// error, `n` skips the command, anything else runs it, whatever the
/// options are.
pub proof fn law_answer_decides(opts: ReplayOptions, other: ReplayOptions, answer: RunAnswer)
    ensures
        replay_decision(opts, ReplayEvent::Answered(answer)) == replay_decision(other, ReplayEvent::Answered(answer)),
        replay_decision(opts, ReplayEvent::Answered(RunAnswer::Abort)) == ReplayAction::Abort,
        replay_decision(opts, ReplayEvent::Answered(RunAnswer::Skip)) == ReplayAction::Skip,
        replay_decision(opts, ReplayEvent::Answered(RunAnswer::Run)) == ReplayAction::Execute,
{
}

/// A command that succeeds always leads on to the next; a failing command
/// stops a replay that does not keep going with its exit code, `-1` where
/// there is none.
pub proof fn law_outcome_decides(opts: ReplayOptions, code: Option<i32>)
    ensures
        replay_decision(opts, ReplayEvent::Ran(CommandOutcome::Succeeded)) == ReplayAction::Next,
        !opts.keep_going ==> replay_decision(opts, ReplayEvent::Ran(CommandOutcome::Exited(code)))
            == ReplayAction::FailExit(
            match code {
                Some(c) => c,
                None => -1i32,
            },
        ),
        !opts.keep_going ==> replay_decision(opts, ReplayEvent::Ran(CommandOutcome::NotStarted)) == ReplayAction::FailStart,
{
}

/// With `keep_going`, no outcome of a command stops the replay.
pub proof fn law_keep_going_never_stops(opts: ReplayOptions, outcome: CommandOutcome)
    requires
        opts.keep_going,
    ensures
        replay_decision(opts, ReplayEvent::Ran(outcome)) == ReplayAction::Next,
{
}

/// Without `keep_going`, the replay stops at the first command that does not
/// succeed.
pub proof fn law_failure_stops(opts: ReplayOptions, outcome: CommandOutcome)
    requires
        !opts.keep_going,
        outcome != CommandOutcome::Succeeded,
    ensures
        replay_decision(opts, ReplayEvent::Ran(outcome)) matches ReplayAction::FailExit(_)
            || replay_decision(opts, ReplayEvent::Ran(outcome)) == ReplayAction::FailStart,
{
}

/// A linked command as a mathematical value.
pub struct LinkedCommandView {
    pub history_id: Seq<char>,
    pub command: Seq<char>,
    pub cwd: Seq<char>,
    pub exit: i64,
    pub duration: i64,
    pub timestamp: Seq<char>,
}

impl View for LinkedCommandJson {
    type V = LinkedCommandView;

    open spec fn view(&self) -> LinkedCommandView {
        LinkedCommandView {
            history_id: self.history_id@,
            command: self.command@,
            cwd: self.cwd@,
            exit: self.exit,
            duration: self.duration,
            timestamp: self.timestamp@,
        }
    }
}

/// An optional text, or `unknown`.
pub open spec fn or_unknown(o: Option<Seq<char>>) -> Seq<char> {
    match o {
        Some(x) => x,
        None => "unknown"@,
    }
}

/// The two lines of each of the first `k` linked commands: its position, a
/// tick or a cross for its exit status, and the command; then its
/// directory, duration and exit status.
pub open spec fn command_lines(cs: Seq<LinkedCommandView>, k: nat) -> Seq<Seq<char>>
    decreases k,
{
    if k == 0 || k > cs.len() {
        Seq::empty()
    } else {
        let i = (k - 1) as nat;
        let c = cs[i as int];
        command_lines(cs, i) + seq![
            "  ["@ + decimal_text(i) + "] "@ + (if c.exit == 0 {
                "✓"@
            } else {
                "✗"@
            }) + " "@ + c.command,
            "      "@ + c.cwd + " ("@ + signed_text(c.duration as int) + "ms, exit "@ + signed_text(c.exit as int)
                + ")"@,
        ]
    }
}

/// The first lines of the report: the id, and the creation time with the
/// agent that created the memory.
pub open spec fn show_head(m: MemoryView) -> Seq<Seq<char>> {
    seq![
        "Memory: "@ + m.id,
        "Created: "@ + created_text(m.created_at) + match m.agent_id {
            Some(a) => " by "@ + a,
            None => Seq::empty(),
        },
    ]
}

/// The repository line, for a memory made in a repository.
pub open spec fn show_repo(m: MemoryView) -> Seq<Seq<char>> {
    match m.repo_root {
        Some(r) => seq!["Repo: "@ + r + " ("@ + or_unknown(m.git_branch) + " @ "@ + or_unknown(m.git_commit) + ")"@],
        None => Seq::empty(),
    }
}

/// The parent line, for a memory with a parent.
pub open spec fn show_parent(m: MemoryView) -> Seq<Seq<char>> {
    match m.parent_memory_id {
        Some(p) => seq!["Parent: "@ + p],
        None => Seq::empty(),
    }
}

/// The description and the heading of the linked commands.
pub open spec fn show_middle(m: MemoryView, count: nat) -> Seq<Seq<char>> {
    seq![
        Seq::empty(),
        "Description:"@,
        "  "@ + m.description,
        Seq::empty(),
        "Linked commands ("@ + decimal_text(count) + "):"@,
    ]
}

/// The text report of one memory and its linked commands.
pub open spec fn show_text(m: MemoryView, cs: Seq<LinkedCommandView>) -> Seq<Seq<char>> {
    show_head(m) + show_repo(m) + show_parent(m) + show_middle(m, cs.len()) + command_lines(cs, cs.len())
}

proof fn lemma_command_lines(cs: Seq<LinkedCommandView>, k: nat)
    requires
        k <= cs.len(),
    ensures
        command_lines(cs, k).len() == 2 * k,
        forall|i: int| 0 <= i < k ==> {
            let c = cs[i];
            &&& #[trigger] command_lines(cs, k)[2 * i] == "  ["@ + decimal_text(i as nat) + "] "@ + (if c.exit == 0 {
                "✓"@
            } else {
                "✗"@
            }) + " "@ + c.command
            &&& command_lines(cs, k)[2 * i + 1] == "      "@ + c.cwd + " ("@ + signed_text(c.duration as int)
                + "ms, exit "@ + signed_text(c.exit as int) + ")"@
        },
    decreases k,
{
    if k > 0 {
        lemma_command_lines(cs, (k - 1) as nat);
        let prev = command_lines(cs, (k - 1) as nat);
        assert forall|i: int| 0 <= i < k - 1 implies #[trigger] command_lines(cs, k)[2 * i] == prev[2 * i]
            && command_lines(cs, k)[2 * i + 1] == prev[2 * i + 1] by {}
    }
}

/// In the text report each linked command takes two lines, in order, after
/// the heading: the first gives its position, a tick when it exited with
/// status 0 and a cross for every other status, and the command; the
/// second its directory, duration in milliseconds and exit status.
pub proof fn law_show_command_lines(m: MemoryView, cs: Seq<LinkedCommandView>)
    ensures
        ({
            let t = show_text(m, cs);
            let base = t.len() - 2 * cs.len();
            &&& base >= 7
            &&& t[base - 1] == "Linked commands ("@ + decimal_text(cs.len()) + "):"@
            &&& forall|i: int| 0 <= i < cs.len() ==> {
                let c = cs[i];
                &&& #[trigger] t[base + 2 * i] == "  ["@ + decimal_text(i as nat) + "] "@ + (if c.exit == 0 {
                    "✓"@
                } else {
                    "✗"@
                }) + " "@ + c.command
                &&& t[base + 2 * i + 1] == "      "@ + c.cwd + " ("@ + signed_text(c.duration as int) + "ms, exit "@
                    + signed_text(c.exit as int) + ")"@
            }
        }),
{
    lemma_command_lines(cs, cs.len());
    let t = show_text(m, cs);
    let pre = show_head(m) + show_repo(m) + show_parent(m) + show_middle(m, cs.len());
    let cl = command_lines(cs, cs.len());
    assert(t == pre + cl);
    let base = t.len() - 2 * cs.len();
    assert(base == pre.len());
    assert(pre.len() >= 7);
    assert(t[base - 1] == pre[pre.len() - 1]);
    assert forall|i: int| 0 <= i < cs.len() implies #[trigger] t[base + 2 * i] == cl[2 * i] && t[base + 2 * i + 1]
        == cl[2 * i + 1] by {}
}

fn text_or_unknown(o: &Option<String>) -> (res: String)
    ensures
        res@ == or_unknown(o.deep_view()),
{
    match o {
        Some(x) => x.clone(),
        None => String::from_str("unknown"),
    }
}

/// The text report of one memory with its linked commands, line by line.
pub fn show_lines(memory: &Memory, linked: &Vec<LinkedCommandJson>) -> (res: Vec<String>)
    ensures
        lines_view(res@) == show_text(memory@, linked@.map_values(|c: LinkedCommandJson| c@)),
{
    let ghost m = memory@;
    let ghost cs = linked@.map_values(|c: LinkedCommandJson| c@);
    let mut out: Vec<String> = Vec::new();
    assert(lines_view(out@) =~= Seq::<Seq<char>>::empty());

    let mut l1 = String::from_str("Memory: ");
    l1.append(memory.id.as_str());
    let mut l2 = String::from_str("Created: ");
    let created = created_at_text(memory.created_at);
    l2.append(created.as_str());
    if let Some(a) = &memory.agent_id {
        l2.append(" by ");
        l2.append(a.as_str());
    }
    assert(l2@ =~= show_head(m)[1]);
    proof { lemma_lines_push(out@, l1); }
    out.push(l1);
    proof { lemma_lines_push(out@, l2); }
    out.push(l2);
    assert(lines_view(out@) =~= show_head(m));
    if let Some(r) = &memory.repo_root {
        let mut l = String::from_str("Repo: ");
        l.append(r.as_str());
        l.append(" (");
        let b = text_or_unknown(&memory.git_branch);
        l.append(b.as_str());
        l.append(" @ ");
        let c = text_or_unknown(&memory.git_commit);
        l.append(c.as_str());
        l.append(")");
        proof { lemma_lines_push(out@, l); }
        out.push(l);
    }
    assert(lines_view(out@) =~= show_head(m) + show_repo(m));
    if let Some(p) = &memory.parent_memory_id {
        let mut l = String::from_str("Parent: ");
        l.append(p.as_str());
        proof { lemma_lines_push(out@, l); }
        out.push(l);
    }
    assert(lines_view(out@) =~= show_head(m) + show_repo(m) + show_parent(m));
    let mut tail: Vec<String> = Vec::new();
    tail.push(String::new());
    tail.push(String::from_str("Description:"));
    let mut d = String::from_str("  ");
    d.append(memory.description.as_str());
    tail.push(d);
    tail.push(String::new());
    let mut lc = String::from_str("Linked commands (");
    let n = usize_text(linked.len());
    lc.append(n.as_str());
    lc.append("):");
    tail.push(lc);
    let ghost before_tail = lines_view(out@);
    let mut t: usize = 0;
    while t < tail.len()
        invariant
            t <= tail.len(),
            lines_view(out@) == before_tail + lines_view(tail@.take(t as int)),
        decreases tail.len() - t,
    {
        let line = tail[t].clone();
        proof { lemma_lines_push(out@, line); }
        out.push(line);
        t = t + 1;
        assert(lines_view(tail@.take(t as int)) =~= lines_view(tail@.take(t - 1)).push(tail@[t - 1]@));
    }
    assert(tail@.take(tail.len() as int) =~= tail@);
    proof {
        reveal_strlit("");
        assert(""@ =~= Seq::<char>::empty());
    }
    assert(lines_view(tail@) =~= show_middle(m, cs.len()));
    let ghost before_cmds = lines_view(out@);
    let mut k: usize = 0;
    while k < linked.len()
        invariant
            cs == linked@.map_values(|c: LinkedCommandJson| c@),
            k <= linked.len(),
            lines_view(out@) == before_cmds + command_lines(cs, k as nat),
        decreases linked.len() - k,
    {
        let c = &linked[k];
        assert(cs[k as int] == c@);
        let mut a = String::from_str("  [");
        let pos = usize_text(k);
        a.append(pos.as_str());
        a.append("] ");
        if c.exit == 0 {
            a.append("✓");
        } else {
            a.append("✗");
        }
        a.append(" ");
        a.append(c.command.as_str());
        let mut b = String::from_str("      ");
        b.append(c.cwd.as_str());
        b.append(" (");
        let du = i64_text(c.duration);
        b.append(du.as_str());
        b.append("ms, exit ");
        let ex = i64_text(c.exit);
        b.append(ex.as_str());
        b.append(")");
        proof { lemma_lines_push(out@, a); }
        out.push(a);
        proof { lemma_lines_push(out@, b); }
        out.push(b);
        k = k + 1;
        assert(lines_view(out@) =~= before_cmds + command_lines(cs, k as nat));
    }
    assert(lines_view(out@) =~= show_text(m, cs));
    out
}

/// The memories a search finds: by linked command when a command pattern
/// is given (`commands` pairs each history id with its command), else by
/// the full-text ranking of descriptions (`ranked_ids`, best first); in
/// either case only those of repository `repo_root` when it is given.
pub fn search_memories(
    store: &MemoryStore,
    query_ranking: &Vec<String>,
    commands: &Vec<(String, String)>,
    command_pattern: Option<&str>,
    repo_root: Option<&str>,
) -> (res: Vec<Memory>)
    requires
        store.wf(),
    ensures
        res@.map_values(|m: Memory| m@) == match command_pattern {
            Some(p) => command_search_result(store@, commands_view(commands@), p@, opt_str(repo_root)),
            None => search_result(store@.memories, query_ranking@.map_values(|r: String| r@), opt_str(repo_root)),
        },
{
    match command_pattern {
        Some(p) => store.search_by_command(commands, p, repo_root),
        None => store.search(query_ranking, repo_root),
    }
}

/// The directory part of a path, as `std::path::Path::parent` gives it
/// (none for a root or an empty path), as text.
pub uninterp spec fn path_parent(p: Seq<char>) -> Option<Seq<char>>;

/// `std::path::Path::new(p).parent()`, as text. The contract claims only
/// that the result is a function of the path.
#[verifier::external_body]
fn parent_dir(p: &str) -> (res: Option<String>)
    ensures
        res.deep_view() == path_parent(p@),
{
    match std::path::Path::new(p).parent() {
        Some(d) => d.to_str().map(String::from),
        None => None,
    }
}

/// `name` put under directory `base`, as `std::path::Path::join` gives it.
pub uninterp spec fn path_join(base: Seq<char>, name: Seq<char>) -> Seq<char>;

/// `std::path::Path::new(base).join(name)`, as text. The contract claims
/// only that the result is a function of the two paths.
#[verifier::external_body]
fn join_path(base: &str, name: &str) -> (res: String)
    ensures
        res@ == path_join(base@, name@),
{
    std::path::Path::new(base).join(name).to_string_lossy().into_owned()
}

/// Where the memory database lives: `memory.db` in the directory of the
/// history database; where that path has no directory part, in the
/// application's data directory, or else in the current directory.
pub open spec fn memory_db_location(db_path: Seq<char>, data_dir: Option<Seq<char>>) -> Seq<char> {
    let dir = match path_parent(db_path) {
        Some(d) => d,
        None => match data_dir {
            Some(d) => d,
            None => "."@,
        },
    };
    path_join(dir, "memory.db"@)
}

/// The path of the memory database, from the path of the history database
/// and the application's data directory, when there is one.
pub fn memory_db_path(db_path: &str, data_dir: Option<&str>) -> (res: String)
    ensures
        res@ == memory_db_location(
            db_path@,
            match data_dir {
                Some(d) => Some(d@),
                None => None::<Seq<char>>,
            },
        ),
{
    let dir = match parent_dir(db_path) {
        Some(d) => d,
        None => match data_dir {
            Some(d) => String::from_str(d),
            None => String::from_str("."),
        },
    };
    join_path(dir.as_str(), "memory.db")
}

} // verus!
