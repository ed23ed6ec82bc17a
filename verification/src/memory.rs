//! Memories: natural-language notes about work done, linked to history
//! entries, and the JSON shapes they are reported in.
use vstd::prelude::*;
use crate::text::chars_to_string;

verus! {

/// A memory entry that links natural language descriptions to commands
pub struct Memory {
    /// UUIDv7 identifier
    pub id: String,
    /// Natural language description of what was done
    pub description: String,
    /// Current working directory when memory was created
    pub cwd: String,
    /// Git repository root (if in a repo)
    pub repo_root: Option<String>,
    /// Git branch at creation time
    pub git_branch: Option<String>,
    /// Git commit hash at creation time
    pub git_commit: Option<String>,
    /// Which agent created this memory
    pub agent_id: Option<String>,
    /// The memory this one is a sub-task of
    pub parent_memory_id: Option<String>,
    /// When the memory was created, in nanoseconds since the Unix epoch (UTC)
    pub created_at: i64,
}

/// A memory as a mathematical value.
pub struct MemoryView {
    pub id: Seq<char>,
    pub description: Seq<char>,
    pub cwd: Seq<char>,
    pub repo_root: Option<Seq<char>>,
    pub git_branch: Option<Seq<char>>,
    pub git_commit: Option<Seq<char>>,
    pub agent_id: Option<Seq<char>>,
    pub parent_memory_id: Option<Seq<char>>,
    pub created_at: i64,
}

impl View for Memory {
    type V = MemoryView;

    open spec fn view(&self) -> MemoryView {
        MemoryView {
            id: self.id@,
            description: self.description@,
            cwd: self.cwd@,
            repo_root: self.repo_root.deep_view(),
            git_branch: self.git_branch.deep_view(),
            git_commit: self.git_commit.deep_view(),
            agent_id: self.agent_id.deep_view(),
            parent_memory_id: self.parent_memory_id.deep_view(),
            created_at: self.created_at,
        }
    }
}

/// Link between a memory and a history command
pub struct MemoryCommand {
    pub memory_id: String,
    pub history_id: String,
}

impl View for MemoryCommand {
    type V = (Seq<char>, Seq<char>);

    open spec fn view(&self) -> (Seq<char>, Seq<char>) {
        (self.memory_id@, self.history_id@)
    }
}

/// A copy of an optional string.
pub fn copy_opt(o: &Option<String>) -> (res: Option<String>)
    ensures
        res.deep_view() == o.deep_view(),
{
    match o {
        Some(s) => Some(s.clone()),
        None => None,
    }
}

/// An optional string slice as an optional owned string.
pub fn opt_to_string(o: Option<&str>) -> (res: Option<String>)
    ensures
        res.deep_view() == match o {
            Some(s) => Some(s@),
            None => None::<Seq<char>>,
        },
{
    match o {
        Some(s) => Some(String::from_str(s)),
        None => None,
    }
}

impl Memory {
    /// A field-by-field copy.
    pub fn copy(&self) -> (res: Memory)
        ensures
            res@ == self@,
    {
        Memory {
            id: self.id.clone(),
            description: self.description.clone(),
            cwd: self.cwd.clone(),
            repo_root: copy_opt(&self.repo_root),
            git_branch: copy_opt(&self.git_branch),
            git_commit: copy_opt(&self.git_commit),
            agent_id: copy_opt(&self.agent_id),
            parent_memory_id: copy_opt(&self.parent_memory_id),
            created_at: self.created_at,
        }
    }

    /// A new memory, stamped with a fresh identifier and the current time.
    pub fn new(
        description: String,
        cwd: String,
        repo_root: Option<String>,
        git_branch: Option<String>,
        git_commit: Option<String>,
        agent_id: Option<String>,
        parent_memory_id: Option<String>,
    ) -> (res: Memory)
        ensures
            is_simple_uuid_text(res.id@),
            res.description@ == description@,
            res.cwd@ == cwd@,
            res.repo_root.deep_view() == repo_root.deep_view(),
            res.git_branch.deep_view() == git_branch.deep_view(),
            res.git_commit.deep_view() == git_commit.deep_view(),
            res.agent_id.deep_view() == agent_id.deep_view(),
            res.parent_memory_id.deep_view() == parent_memory_id.deep_view(),
    {
        let now = now_unix_nanos();
        Memory::new_at(description, cwd, repo_root, git_branch, git_commit, agent_id, parent_memory_id, now)
    }

    /// A new memory with a fresh identifier, created at instant `now_nanos`
    /// (nanoseconds since the Unix epoch), which is kept as the `i64` that
    /// the database stores (the low 64 bits, as `as i64` casts).
    pub fn new_at(
        description: String,
        cwd: String,
        repo_root: Option<String>,
        git_branch: Option<String>,
        git_commit: Option<String>,
        agent_id: Option<String>,
        parent_memory_id: Option<String>,
        now_nanos: i128,
    ) -> (res: Memory)
        ensures
            is_simple_uuid_text(res.id@),
            res.description@ == description@,
            res.cwd@ == cwd@,
            res.repo_root.deep_view() == repo_root.deep_view(),
            res.git_branch.deep_view() == git_branch.deep_view(),
            res.git_commit.deep_view() == git_commit.deep_view(),
            res.agent_id.deep_view() == agent_id.deep_view(),
            res.parent_memory_id.deep_view() == parent_memory_id.deep_view(),
            res.created_at == now_nanos as i64,
    {
        let id = new_memory_id();
        #[verifier::truncate]
        let created_at = now_nanos as i64;
        Memory {
            id,
            description,
            cwd,
            repo_root,
            git_branch,
            git_commit,
            agent_id,
            parent_memory_id,
            created_at,
        }
    }
}

pub open spec fn is_lower_hex_digit(c: char) -> bool {
    ('0' <= c && c <= '9') || ('a' <= c && c <= 'f')
}

/// The text of a UUID in its "simple" form: 32 lower-case hexadecimal digits.
pub open spec fn is_simple_uuid_text(s: Seq<char>) -> bool {
    s.len() == 32 && forall|i: int| 0 <= i < s.len() ==> is_lower_hex_digit(#[trigger] s[i])
}

/// A fresh version-7 UUID from `atuin_common::utils::uuid_v7`, in its simple
/// text form (`Uuid::as_simple` displayed: 32 lower-case hexadecimal digits).
/// Which UUID comes back depends on the clock and a random source; the
/// contract states only the form of the text.
#[verifier::external_body]
fn new_memory_id() -> (res: String)
    ensures
        is_simple_uuid_text(res@),
{
    atuin_common::utils::uuid_v7().as_simple().to_string()
}

/// The current time from `time::OffsetDateTime::now_utc`, as nanoseconds
/// since the Unix epoch (`unix_timestamp_nanos`). Nothing is promised of
/// the value: it is the clock's.
#[verifier::external_body]
fn now_unix_nanos() -> i128 {
    time::OffsetDateTime::now_utc().unix_timestamp_nanos()
}

/// The RFC 3339 text of the UTC instant `nanos` nanoseconds after the Unix
/// epoch, as the `time` crate writes it.
pub uninterp spec fn rfc3339_utc(nanos: int) -> Seq<char>;

/// `time::OffsetDateTime::from_unix_timestamp_nanos(nanos)` formatted with
/// `time::format_description::well_known::Rfc3339`. The contract claims that
/// the text is a function of `nanos` alone, and that the call succeeds for
/// every instant from `i64::MIN` to `u64::MAX` nanoseconds (years 1677 to
/// 2554, inside both the range of `OffsetDateTime` and the years 0 to 9999
/// that the format accepts, at the UTC offset).
#[verifier::external_body]
pub(crate) fn format_rfc3339_nanos(nanos: i128) -> (res: Option<String>)
    ensures
        match res {
            Some(s) => s@ == rfc3339_utc(nanos as int),
            None => !(i64::MIN <= nanos <= u64::MAX),
        },
{
    match time::OffsetDateTime::from_unix_timestamp_nanos(nanos) {
        Ok(t) => t.format(&time::format_description::well_known::Rfc3339).ok(),
        Err(_) => None,
    }
}

/// The RFC 3339 text of a stored creation time.
pub open spec fn created_text(nanos: i64) -> Seq<char> {
    rfc3339_utc(nanos as int)
}

/// The creation time of a memory as RFC 3339 text.
pub fn created_at_text(nanos: i64) -> (res: String)
    ensures
        res@ == created_text(nanos),
{
    match format_rfc3339_nanos(nanos as i128) {
        Some(s) => s,
        None => String::new(),
    }
}

/// A path component that names something: neither empty nor `.`.
pub open spec fn names_something(seg: Seq<char>) -> bool {
    seg.len() > 0 && seg != seq!['.']
}

/// Reading a path left to right: the component being read, and the last
/// complete component read so far that names something.
pub open spec fn path_scan(p: Seq<char>) -> (Seq<char>, Option<Seq<char>>)
    decreases p.len(),
{
    if p.len() == 0 {
        (Seq::empty(), None)
    } else {
        let (cur, last) = path_scan(p.drop_last());
        if p.last() == '/' {
            (Seq::empty(), if names_something(cur) { Some(cur) } else { last })
        } else {
            (cur.push(p.last()), last)
        }
    }
}

/// The final component of a path, as `std::path::Path::file_name` gives it on
/// Unix: components are separated by `/`, empty and `.` components are
/// skipped, and there is no file name when no component is left or the last
/// one is `..`.
pub open spec fn file_name(p: Seq<char>) -> Option<Seq<char>> {
    let (cur, last) = path_scan(p);
    let fin = if names_something(cur) { Some(cur) } else { last };
    match fin {
        Some(seg) => if seg == seq!['.', '.'] { None } else { Some(seg) },
        None => None,
    }
}

fn names_something_exec(seg: &Vec<char>) -> (res: bool)
    ensures
        res == names_something(seg@),
{
    if seg.len() == 0 {
        return false;
    }
    if seg.len() == 1 && seg[0] == '.' {
        assert(seg@ =~= seq!['.']);
        return false;
    }
    assert(seg@.len() != 1 || seg@[0] != '.');
    assert(seg@ != seq!['.']) by {
        if seg@ == seq!['.'] {
            assert(seg@.len() == 1);
        }
    }
    true
}

/// The name of a repository: the final component of its root path.
pub fn repo_name(path: &str) -> (res: Option<String>)
    ensures
        res.deep_view() == file_name(path@),
{
    let cs = crate::text::chars_of(path);
    let mut cur: Vec<char> = Vec::new();
    let mut last: Option<Vec<char>> = None;
    let mut i: usize = 0;
    while i < cs.len()
        invariant
            i <= cs.len(),
            cs@ == path@,
            path_scan(cs@.take(i as int)) == (cur@, match last {
                Some(l) => Some(l@),
                None => None::<Seq<char>>,
            }),
        decreases cs.len() - i,
    {
        let c = cs[i];
        assert(cs@.take(i + 1).drop_last() =~= cs@.take(i as int));
        if c == '/' {
            if names_something_exec(&cur) {
                last = Some(cur);
            }
            cur = Vec::new();
            assert(cur@ =~= Seq::<char>::empty());
        } else {
            cur.push(c);
        }
        i = i + 1;
    }
    assert(cs@.take(cs.len() as int) =~= path@);
    let fin = if names_something_exec(&cur) { Some(cur) } else { last };
    match fin {
        Some(seg) => {
            if seg.len() == 2 && seg[0] == '.' && seg[1] == '.' {
                assert(seg@ =~= seq!['.', '.']);
                None
            } else {
                assert(seg@ != seq!['.', '.']) by {
                    if seg@ == seq!['.', '.'] {
                        assert(seg@.len() == 2 && seg@[0] == '.' && seg@[1] == '.');
                    }
                }
                Some(chars_to_string(&seg))
            }
        },
        None => None,
    }
}

/// JSON output format for memory list
pub struct MemoryJson {
    pub id: String,
    pub description: String,
    pub repo: Option<String>,
    pub created_at: String,
    pub commands_count: usize,
}

/// A memory's JSON summary as a mathematical value.
pub struct MemoryJsonView {
    pub id: Seq<char>,
    pub description: Seq<char>,
    pub repo: Option<Seq<char>>,
    pub created_at: Seq<char>,
    pub commands_count: usize,
}

impl View for MemoryJson {
    type V = MemoryJsonView;

    open spec fn view(&self) -> MemoryJsonView {
        MemoryJsonView {
            id: self.id@,
            description: self.description@,
            repo: self.repo.deep_view(),
            created_at: self.created_at@,
            commands_count: self.commands_count,
        }
    }
}

/// The repository name shown for a memory: the file name of its repository root.
pub open spec fn repo_of(repo_root: Option<Seq<char>>) -> Option<Seq<char>> {
    match repo_root {
        Some(r) => file_name(r),
        None => None,
    }
}

/// The JSON summary of a memory with the given number of linked commands.
pub open spec fn json_of(m: MemoryView, commands_count: usize) -> MemoryJsonView {
    MemoryJsonView {
        id: m.id,
        description: m.description,
        repo: repo_of(m.repo_root),
        created_at: created_text(m.created_at),
        commands_count,
    }
}

/// The repository name of an optional repository root.
pub fn repo_of_root(repo_root: &Option<String>) -> (res: Option<String>)
    ensures
        res.deep_view() == repo_of(repo_root.deep_view()),
{
    match repo_root {
        Some(r) => repo_name(r.as_str()),
        None => None,
    }
}

impl MemoryJson {
    /// The JSON summary of a memory; the count of linked commands is left at
    /// zero, to be filled in from the store.
    pub fn from(m: &Memory) -> (res: MemoryJson)
        ensures
            res@ == json_of(m@, 0),
    {
        MemoryJson {
            id: m.id.clone(),
            description: m.description.clone(),
            repo: repo_of_root(&m.repo_root),
            created_at: created_at_text(m.created_at),
            commands_count: 0,
        }
    }
}

/// JSON output for memory creation result
pub struct MemoryCreateJson {
    pub id: String,
    pub description: String,
    pub commands_linked: usize,
    pub repo: Option<String>,
    pub branch: Option<String>,
    pub commit: Option<String>,
    pub parent_memory_id: Option<String>,
}

/// A node of the memory forest in JSON output.
pub struct MemoryTreeNode {
    pub memory: MemoryJson,
    pub children: Vec<MemoryTreeNode>,
}

} // verus!
