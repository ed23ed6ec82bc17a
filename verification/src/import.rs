//! History import: which importer to use, the batches the importer saves,
//! and the JSON report.
use vstd::prelude::*;
use crate::text::{chars_of, to_lowercase, unicode_lowercase};

verus! {

/// JSON output format for import result
pub struct ImportResultJson {
    pub status: String,
    pub source: String,
    pub source_path: Option<String>,
    pub entries_found: usize,
    pub entries_imported: usize,
    pub error: Option<String>,
}

/// An import report as a mathematical value.
pub struct ImportResultJsonView {
    pub status: Seq<char>,
    pub source: Seq<char>,
    pub source_path: Option<Seq<char>>,
    pub entries_found: usize,
    pub entries_imported: usize,
    pub error: Option<Seq<char>>,
}

impl View for ImportResultJson {
    type V = ImportResultJsonView;

    open spec fn view(&self) -> ImportResultJsonView {
        ImportResultJsonView {
            status: self.status@,
            source: self.source@,
            source_path: self.source_path.deep_view(),
            entries_found: self.entries_found,
            entries_imported: self.entries_imported,
            error: self.error.deep_view(),
        }
    }
}

/// The arguments of `import`.
pub struct Cmd {
    /// Output in JSON format
    pub json: bool,
    pub shell: ShellCmd,
}

/// The shell whose history to import.
#[derive(Debug, Clone, Copy, PartialEq, Eq, Structural)]
pub enum ShellCmd {
    /// Import history for the current shell
    Auto,
    /// Import history from the zsh history file
    Zsh,
    /// Import history from the zsh history file
    ZshHistDb,
    /// Import history from the bash history file
    Bash,
    /// Import history from the replxx history file
    Replxx,
    /// Import history from the resh history file
    Resh,
    /// Import history from the fish history file
    Fish,
    /// Import history from the nu history file
    Nu,
    /// Import history from the nu history file
    NuHistDb,
    /// Import history from xonsh json files
    Xonsh,
    /// Import history from xonsh sqlite db
    XonshSqlite,
    /// Import history from the powershell history file
    Powershell,
}

/// What looking at the environment tells about the current shell.
#[derive(Debug)]
pub enum Detected {
    /// The importer to run.
    Importer(ShellCmd),
    /// On Windows without PowerShell: the shell cannot be told.
    NoShell,
    /// A shell that has no importer, named by `$SHELL`.
    Unsupported(String),
}

/// A detection result as a mathematical value.
pub enum DetectedView {
    Importer(ShellCmd),
    NoShell,
    Unsupported(Seq<char>),
}

impl View for Detected {
    type V = DetectedView;

    open spec fn view(&self) -> DetectedView {
        match self {
            Detected::Importer(s) => DetectedView::Importer(*s),
            Detected::NoShell => DetectedView::NoShell,
            Detected::Unsupported(s) => DetectedView::Unsupported(s@),
        }
    }
}

/// `s` ends with `suffix`, as `str::ends_with` tests it.
pub open spec fn has_suffix(s: Seq<char>, suffix: Seq<char>) -> bool {
    suffix.len() <= s.len() && s.subrange(s.len() - suffix.len(), s.len() as int) == suffix
}

/// Whether `s` ends with `suffix`.
pub fn ends_with(s: &str, suffix: &str) -> (res: bool)
    ensures
        res == has_suffix(s@, suffix@),
{
    let a = chars_of(s);
    let b = chars_of(suffix);
    if b.len() > a.len() {
        return false;
    }
    let off = a.len() - b.len();
    let mut i: usize = 0;
    while i < b.len()
        invariant
            a@ == s@,
            b@ == suffix@,
            b.len() <= a.len(),
            off == a.len() - b.len(),
            i <= b.len(),
            forall|k: int| 0 <= k < i ==> a@[off + k] == b@[k],
        decreases b.len() - i,
    {
        if a[off + i] != b[i] {
            assert(s@.subrange(off as int, s@.len() as int)[i as int] != suffix@[i as int]);
            return false;
        }
        i = i + 1;
    }
    assert(s@.subrange(off as int, s@.len() as int) =~= suffix@);
    true
}

/// What the environment tells: on Windows only whether `$PSModulePath` is
/// set counts; elsewhere the lower-cased `$XONSH_HISTORY_FILE` is tried for
/// the xonsh back ends first, then the end of `$SHELL`, with a history
/// database preferred for zsh and nu where one is found.
pub open spec fn detection(
    is_windows: bool,
    ps_module_path_set: bool,
    xonsh_lower: Seq<char>,
    shell: Seq<char>,
    zsh_histdb_found: bool,
    nu_histdb_found: bool,
) -> DetectedView {
    if is_windows {
        if ps_module_path_set {
            DetectedView::Importer(ShellCmd::Powershell)
        } else {
            DetectedView::NoShell
        }
    } else if has_suffix(xonsh_lower, seq!['.', 'j', 's', 'o', 'n']) {
        DetectedView::Importer(ShellCmd::Xonsh)
    } else if has_suffix(xonsh_lower, seq!['.', 's', 'q', 'l', 'i', 't', 'e']) {
        DetectedView::Importer(ShellCmd::XonshSqlite)
    } else if has_suffix(shell, seq!['/', 'z', 's', 'h']) {
        if zsh_histdb_found {
            DetectedView::Importer(ShellCmd::ZshHistDb)
        } else {
            DetectedView::Importer(ShellCmd::Zsh)
        }
    } else if has_suffix(shell, seq!['/', 'f', 'i', 's', 'h']) {
        DetectedView::Importer(ShellCmd::Fish)
    } else if has_suffix(shell, seq!['/', 'b', 'a', 's', 'h']) {
        DetectedView::Importer(ShellCmd::Bash)
    } else if has_suffix(shell, seq!['/', 'n', 'u']) {
        if nu_histdb_found {
            DetectedView::Importer(ShellCmd::NuHistDb)
        } else {
            DetectedView::Importer(ShellCmd::Nu)
        }
    } else if has_suffix(shell, seq!['/', 'p', 'w', 's', 'h']) {
        DetectedView::Importer(ShellCmd::Powershell)
    } else {
        DetectedView::Unsupported(shell)
    }
}

/// The importer for the current shell, from the already lower-cased
/// `$XONSH_HISTORY_FILE` and from `$SHELL`.
pub fn choose_importer(
    is_windows: bool,
    ps_module_path_set: bool,
    xonsh_lower: &str,
    shell: &str,
    zsh_histdb_found: bool,
    nu_histdb_found: bool,
) -> (res: Detected)
    ensures
        res@ == detection(
            is_windows,
            ps_module_path_set,
            xonsh_lower@,
            shell@,
            zsh_histdb_found,
            nu_histdb_found,
        ),
{
    proof {
        reveal_strlit(".json");
        reveal_strlit(".sqlite");
        reveal_strlit("/zsh");
        reveal_strlit("/fish");
        reveal_strlit("/bash");
        reveal_strlit("/nu");
        reveal_strlit("/pwsh");
        assert(".json"@ =~= seq!['.', 'j', 's', 'o', 'n']);
        assert(".sqlite"@ =~= seq!['.', 's', 'q', 'l', 'i', 't', 'e']);
        assert("/zsh"@ =~= seq!['/', 'z', 's', 'h']);
        assert("/fish"@ =~= seq!['/', 'f', 'i', 's', 'h']);
        assert("/bash"@ =~= seq!['/', 'b', 'a', 's', 'h']);
        assert("/nu"@ =~= seq!['/', 'n', 'u']);
        assert("/pwsh"@ =~= seq!['/', 'p', 'w', 's', 'h']);
    }
    if is_windows {
        if ps_module_path_set {
            Detected::Importer(ShellCmd::Powershell)
        } else {
            Detected::NoShell
        }
    } else if ends_with(xonsh_lower, ".json") {
        Detected::Importer(ShellCmd::Xonsh)
    } else if ends_with(xonsh_lower, ".sqlite") {
        Detected::Importer(ShellCmd::XonshSqlite)
    } else if ends_with(shell, "/zsh") {
        if zsh_histdb_found {
            Detected::Importer(ShellCmd::ZshHistDb)
        } else {
            Detected::Importer(ShellCmd::Zsh)
        }
    } else if ends_with(shell, "/fish") {
        Detected::Importer(ShellCmd::Fish)
    } else if ends_with(shell, "/bash") {
        Detected::Importer(ShellCmd::Bash)
    } else if ends_with(shell, "/nu") {
        if nu_histdb_found {
            Detected::Importer(ShellCmd::NuHistDb)
        } else {
            Detected::Importer(ShellCmd::Nu)
        }
    } else if ends_with(shell, "/pwsh") {
        Detected::Importer(ShellCmd::Powershell)
    } else {
        Detected::Unsupported(String::from_str(shell))
    }
}

/// The value `$SHELL` is read as when it is not set.
pub open spec fn shell_or_default(shell: Option<Seq<char>>) -> Seq<char> {
    match shell {
        Some(s) => s,
        None => seq!['N', 'O', '_', 'S', 'H', 'E', 'L', 'L'],
    }
}

/// The importer for the current shell, from the environment: whether this
/// is Windows, whether `$PSModulePath` is set, `$XONSH_HISTORY_FILE` and
/// `$SHELL` where set, and whether a zsh or nu history database was found.
pub fn detect_shell(
    is_windows: bool,
    ps_module_path_set: bool,
    xonsh_histfile: Option<&str>,
    shell: Option<&str>,
    zsh_histdb_found: bool,
    nu_histdb_found: bool,
) -> (res: Detected)
    ensures
        res@ == detection(
            is_windows,
            ps_module_path_set,
            match xonsh_histfile {
                Some(x) => unicode_lowercase(x@),
                None => Seq::<char>::empty(),
            },
            shell_or_default(
                match shell {
                    Some(s) => Some(s@),
                    None => None::<Seq<char>>,
                },
            ),
            zsh_histdb_found,
            nu_histdb_found,
        ),
{
    proof {
        reveal_strlit("NO_SHELL");
        assert("NO_SHELL"@ =~= seq!['N', 'O', '_', 'S', 'H', 'E', 'L', 'L']);
    }
    let lower = match xonsh_histfile {
        Some(x) => to_lowercase(x),
        None => String::new(),
    };
    let sh = match shell {
        Some(s) => s,
        None => "NO_SHELL",
    };
    choose_importer(is_windows, ps_module_path_set, lower.as_str(), sh, zsh_histdb_found, nu_histdb_found)
}

/// The message for a shell that has no importer.
pub open spec fn unsupported_message(shell: Seq<char>) -> Seq<char> {
    "cannot import "@ + shell + " history"@
}

/// The text shown for a shell that has no importer.
pub fn unsupported_text(shell: &str) -> (res: String)
    ensures
        res@ == unsupported_message(shell@),
{
    let mut e = String::from_str("cannot import ");
    e.append(shell);
    e.append(" history");
    e
}

/// The report of a finished import.
pub open spec fn success_report(source: Seq<char>, entries_found: usize, entries_imported: usize) -> ImportResultJsonView {
    ImportResultJsonView {
        status: "success"@,
        source,
        source_path: None,
        entries_found,
        entries_imported,
        error: None,
    }
}

/// The report of a failed detection, or none when an importer was found.
pub open spec fn failure_report(d: DetectedView) -> Option<ImportResultJsonView> {
    match d {
        DetectedView::Importer(_) => None,
        DetectedView::NoShell => Some(
            ImportResultJsonView {
                status: "error"@,
                source: "unknown"@,
                source_path: None,
                entries_found: 0,
                entries_imported: 0,
                error: Some("Could not detect the current shell"@),
            },
        ),
        DetectedView::Unsupported(shell) => Some(
            ImportResultJsonView {
                status: "error"@,
                source: shell,
                source_path: None,
                entries_found: 0,
                entries_imported: 0,
                error: Some(unsupported_message(shell)),
            },
        ),
    }
}

impl ImportResultJson {
    /// The report of an import from `source` that found and imported the given
    /// numbers of entries.
    pub fn success(source: &str, entries_found: usize, entries_imported: usize) -> (res: ImportResultJson)
        ensures
            res@ == success_report(source@, entries_found, entries_imported),
    {
        ImportResultJson {
            status: String::from_str("success"),
            source: String::from_str(source),
            source_path: None,
            entries_found,
            entries_imported,
            error: None,
        }
    }

    /// The report of a detection that found no importer; none where one was
    /// found.
    pub fn failure(d: &Detected) -> (res: Option<ImportResultJson>)
        ensures
            res.is_some() <==> failure_report(d@).is_some(),
            res matches Some(r) ==> failure_report(d@) == Some(r@),
    {
        match d {
            Detected::Importer(_) => None,
            Detected::NoShell => Some(
                ImportResultJson {
                    status: String::from_str("error"),
                    source: String::from_str("unknown"),
                    source_path: None,
                    entries_found: 0,
                    entries_imported: 0,
                    error: Some(String::from_str("Could not detect the current shell")),
                },
            ),
            Detected::Unsupported(shell) => Some(
                ImportResultJson {
                    status: String::from_str("error"),
                    source: shell.clone(),
                    source_path: None,
                    entries_found: 0,
                    entries_imported: 0,
                    error: Some(unsupported_text(shell.as_str())),
                },
            ),
        }
    }
}

/// How many history entries are saved together.
pub const BATCH_SIZE: usize = 100;

/// The batches of `items`, each full, one after the other.
pub open spec fn full_batches<T>(batches: Seq<Seq<T>>) -> bool {
    forall|i: int| 0 <= i < batches.len() ==> (#[trigger] batches[i]).len() == BATCH_SIZE
}

/// Collects imported history entries and hands them out in batches of
/// `BATCH_SIZE` for saving; whatever is left is handed out by `flush`.
pub struct HistoryImporter<T> {
    buf: Vec<T>,
    imported_count: usize,
    pushed: Ghost<Seq<T>>,
    batches: Ghost<Seq<Seq<T>>>,
}

impl<T> HistoryImporter<T> {
    /// The entries pushed so far, in order.
    pub closed spec fn pushed(&self) -> Seq<T> {
        self.pushed@
    }

    /// The batches handed out so far, in order.
    pub closed spec fn batches(&self) -> Seq<Seq<T>> {
        self.batches@
    }

    /// The entries pushed but not yet handed out.
    pub closed spec fn pending(&self) -> Seq<T> {
        self.buf@
    }

    /// The count of imported entries, as a `usize` counter keeps it.
    pub closed spec fn count(&self) -> usize {
        self.imported_count
    }

    /// The batches and the pending entries make up what was pushed; every
    /// batch is full and fewer than a batch is pending; the counter counts
    /// every push.
    pub closed spec fn wf(&self) -> bool {
        &&& self.batches@.flatten() + self.buf@ == self.pushed@
        &&& full_batches(self.batches@)
        &&& self.buf@.len() < BATCH_SIZE
        &&& self.imported_count as int == self.pushed@.len() as int % (usize::MAX as int + 1)
    }

    /// An importer with nothing pushed.
    pub fn new() -> (res: HistoryImporter<T>)
        ensures
            res.wf(),
            res.pushed() == Seq::<T>::empty(),
            res.batches() == Seq::<Seq<T>>::empty(),
            res.pending() == Seq::<T>::empty(),
            res.count() == 0,
    {
        let res = HistoryImporter {
            buf: Vec::new(),
            imported_count: 0,
            pushed: Ghost(Seq::empty()),
            batches: Ghost(Seq::empty()),
        };
        assert(res.batches@.flatten() =~= Seq::<T>::empty());
        assert(res.batches@.flatten() + res.buf@ =~= res.pushed@);
        res
    }

    /// How many entries were pushed (counted modulo the range of `usize`).
    pub fn get_imported_count(&self) -> (res: usize)
        ensures
            res == self.count(),
    {
        self.imported_count
    }

    /// Takes one entry; when a batch is full it is handed out to be saved.
    pub fn push(&mut self, hist: T) -> (res: Option<Vec<T>>)
        requires
            old(self).wf(),
        ensures
            final(self).wf(),
            final(self).pushed() == old(self).pushed().push(hist),
            final(self).count() as int == (old(self).count() as int + 1) % (usize::MAX as int + 1),
            match res {
                Some(batch) => {
                    &&& batch@ == old(self).pending().push(hist)
                    &&& batch@.len() == BATCH_SIZE
                    &&& final(self).pending() == Seq::<T>::empty()
                    &&& final(self).batches() == old(self).batches().push(batch@)
                },
                None => {
                    &&& final(self).pending() == old(self).pending().push(hist)
                    &&& final(self).batches() == old(self).batches()
                },
            },
    {
        let ghost old_pushed = self.pushed@;
        let ghost old_count = self.imported_count;
        proof {
            let n = old_pushed.len() as int;
            let m = usize::MAX as int + 1;
            assert((n + 1) % m == (n % m + 1) % m) by (nonlinear_arith)
                requires m > 0, n >= 0;
        }
        self.imported_count = self.imported_count.wrapping_add(1);
        self.buf.push(hist);
        self.pushed = Ghost(old_pushed.push(hist));
        assert(self.batches@.flatten() + self.buf@ =~= self.pushed@);
        if self.buf.len() == BATCH_SIZE {
            let mut batch: Vec<T> = Vec::new();
            std::mem::swap(&mut batch, &mut self.buf);
            let ghost old_batches = self.batches@;
            self.batches = Ghost(old_batches.push(batch@));
            proof {
                vstd::seq_lib::lemma_flatten_concat(old_batches, seq![batch@]);
                let one = seq![batch@];
                assert(one.drop_first() =~= Seq::<Seq<T>>::empty());
                assert(one.drop_first().flatten() =~= Seq::<T>::empty());
                assert(one.first() == batch@);
                assert(one.flatten() == one.first() + one.drop_first().flatten());
                assert(one.flatten() =~= batch@);
                assert(old_batches + seq![batch@] =~= old_batches.push(batch@));
                assert(self.batches@.flatten() + self.buf@ =~= self.pushed@);
            }
            Some(batch)
        } else {
            None
        }
    }

    /// Hands out the entries still pending, with the count of all pushed.
    pub fn flush(self) -> (res: (Vec<T>, usize))
        requires
            self.wf(),
        ensures
            res.0@ == self.pending(),
            self.batches().flatten() + res.0@ == self.pushed(),
            res.1 == self.count(),
    {
        (self.buf, self.imported_count)
    }
}

/// Full batches flatten to a whole number of batches' worth of entries.
proof fn lemma_full_batches_len<T>(batches: Seq<Seq<T>>)
    requires
        full_batches(batches),
    ensures
        batches.flatten().len() == BATCH_SIZE * batches.len(),
    decreases batches.len(),
{
    if batches.len() > 0 {
        let rest = batches.drop_first();
        assert(full_batches(rest)) by {
            assert forall|i: int| 0 <= i < rest.len() implies (#[trigger] rest[i]).len() == BATCH_SIZE by {
                assert(rest[i] == batches[i + 1]);
            }
        }
        lemma_full_batches_len(rest);
        assert(batches[0].len() == BATCH_SIZE);
    }
}

/// What `push` and `flush` hand out makes up exactly what was pushed, in the
/// order it was pushed: the batches, each of `BATCH_SIZE` entries, one for
/// every whole `BATCH_SIZE` pushed, followed by the rest of the entries
/// pending (so `flush` has entries to save exactly when the number pushed
/// is not a whole number of batches). The count of imported entries is the
/// number of pushes (modulo the range of `usize`).
pub proof fn law_batches_cover_pushed<T>(imp: HistoryImporter<T>)
    requires
        imp.wf(),
    ensures
        imp.batches().flatten() + imp.pending() == imp.pushed(),
        forall|i: int| 0 <= i < imp.batches().len() ==> (#[trigger] imp.batches()[i]).len() == BATCH_SIZE,
        imp.batches().len() == imp.pushed().len() / (BATCH_SIZE as nat),
        imp.pending().len() == imp.pushed().len() % (BATCH_SIZE as nat),
        imp.pending().len() > 0 <==> imp.pushed().len() % (BATCH_SIZE as nat) != 0,
        imp.count() as int == imp.pushed().len() as int % (usize::MAX as int + 1),
{
    let b = imp.batches().len() as int;
    let p = imp.pending().len() as int;
    lemma_full_batches_len(imp.batches());
    assert(imp.pushed().len() == 100 * b + p);
    vstd::arithmetic::div_mod::lemma_fundamental_div_mod(100 * b + p, 100);
    vstd::arithmetic::div_mod::lemma_mod_multiples_vanish(b, p, 100);
    vstd::arithmetic::div_mod::lemma_small_mod(p as nat, 100);
    assert((100 * b + p) % 100 == p);
    assert((100 * b + p) / 100 == b) by (nonlinear_arith)
        requires
            (100 * b + p) == 100 * ((100 * b + p) / 100) + (100 * b + p) % 100,
            (100 * b + p) % 100 == p,
    ;
}

/// The message shown when detection picks an importer; for a history
/// database, with the path it was found at.
pub open spec fn detected_message(shell: ShellCmd, histdb_path: Seq<char>) -> Seq<char> {
    match shell {
        ShellCmd::Xonsh => "Detected Xonsh"@,
        ShellCmd::XonshSqlite => "Detected Xonsh (SQLite backend)"@,
        ShellCmd::ZshHistDb => "Detected Zsh-HistDb, using :"@ + histdb_path,
        ShellCmd::Zsh => "Detected ZSH"@,
        ShellCmd::Fish => "Detected Fish"@,
        ShellCmd::Bash => "Detected Bash"@,
        ShellCmd::NuHistDb => "Detected Nu-HistDb, using :"@ + histdb_path,
        ShellCmd::Nu => "Detected Nushell"@,
        ShellCmd::Powershell => "Detected PowerShell"@,
        _ => Seq::empty(),
    }
}

/// The message shown when detection picks `shell`; `histdb_path` is where
/// the zsh or nu history database was found.
pub fn detected_text(shell: ShellCmd, histdb_path: &str) -> (res: String)
    ensures
        res@ == detected_message(shell, histdb_path@),
{
    match shell {
        ShellCmd::Xonsh => String::from_str("Detected Xonsh"),
        ShellCmd::XonshSqlite => String::from_str("Detected Xonsh (SQLite backend)"),
        ShellCmd::ZshHistDb => {
            let mut m = String::from_str("Detected Zsh-HistDb, using :");
            m.append(histdb_path);
            m
        },
        ShellCmd::Zsh => String::from_str("Detected ZSH"),
        ShellCmd::Fish => String::from_str("Detected Fish"),
        ShellCmd::Bash => String::from_str("Detected Bash"),
        ShellCmd::NuHistDb => {
            let mut m = String::from_str("Detected Nu-HistDb, using :");
            m.append(histdb_path);
            m
        },
        ShellCmd::Nu => String::from_str("Detected Nushell"),
        ShellCmd::Powershell => String::from_str("Detected PowerShell"),
        _ => String::new(),
    }
}

/// On Windows only `$PSModulePath` counts: PowerShell when it is set, and
/// no shell otherwise, whatever the other variables hold.
pub proof fn law_detect_on_windows(
    ps_module_path_set: bool,
    xonsh_lower: Seq<char>,
    shell: Seq<char>,
    zsh_histdb_found: bool,
    nu_histdb_found: bool,
)
    ensures
        detection(true, ps_module_path_set, xonsh_lower, shell, zsh_histdb_found, nu_histdb_found) == if ps_module_path_set {
            DetectedView::Importer(ShellCmd::Powershell)
        } else {
            DetectedView::NoShell
        },
{
}

/// Elsewhere a xonsh history file decides before `$SHELL`: one ending in
/// `.json` picks the xonsh importer, one ending in `.sqlite` the xonsh
/// SQLite importer, whatever `$SHELL` holds.
pub proof fn law_detect_xonsh_before_shell(
    ps_module_path_set: bool,
    xonsh_lower: Seq<char>,
    shell: Seq<char>,
    zsh_histdb_found: bool,
    nu_histdb_found: bool,
)
    ensures
        has_suffix(xonsh_lower, seq!['.', 'j', 's', 'o', 'n']) ==> detection(
            false,
            ps_module_path_set,
            xonsh_lower,
            shell,
            zsh_histdb_found,
            nu_histdb_found,
        ) == DetectedView::Importer(ShellCmd::Xonsh),
        !has_suffix(xonsh_lower, seq!['.', 'j', 's', 'o', 'n']) && has_suffix(
            xonsh_lower,
            seq!['.', 's', 'q', 'l', 'i', 't', 'e'],
        ) ==> detection(false, ps_module_path_set, xonsh_lower, shell, zsh_histdb_found, nu_histdb_found)
            == DetectedView::Importer(ShellCmd::XonshSqlite),
{
}

/// Elsewhere, without a xonsh history file, the end of `$SHELL` decides:
/// zsh (its history database where one is found), fish, bash, nu (its
/// history database where one is found) or PowerShell; any other shell has
/// no importer and is reported by its `$SHELL`. `$PSModulePath` plays no part.
pub proof fn law_detect_by_shell(
    ps_module_path_set: bool,
    xonsh_lower: Seq<char>,
    shell: Seq<char>,
    zsh_histdb_found: bool,
    nu_histdb_found: bool,
)
    requires
        !has_suffix(xonsh_lower, seq!['.', 'j', 's', 'o', 'n']),
        !has_suffix(xonsh_lower, seq!['.', 's', 'q', 'l', 'i', 't', 'e']),
    ensures
        ({
            let d = detection(false, ps_module_path_set, xonsh_lower, shell, zsh_histdb_found, nu_histdb_found);
            &&& has_suffix(shell, seq!['/', 'z', 's', 'h']) ==> d == DetectedView::Importer(
                if zsh_histdb_found {
                    ShellCmd::ZshHistDb
                } else {
                    ShellCmd::Zsh
                },
            )
            &&& has_suffix(shell, seq!['/', 'f', 'i', 's', 'h']) ==> d == DetectedView::Importer(ShellCmd::Fish)
            &&& has_suffix(shell, seq!['/', 'b', 'a', 's', 'h']) ==> d == DetectedView::Importer(ShellCmd::Bash)
            &&& has_suffix(shell, seq!['/', 'n', 'u']) ==> d == DetectedView::Importer(
                if nu_histdb_found {
                    ShellCmd::NuHistDb
                } else {
                    ShellCmd::Nu
                },
            )
            &&& has_suffix(shell, seq!['/', 'p', 'w', 's', 'h']) ==> d == DetectedView::Importer(ShellCmd::Powershell)
            &&& !has_suffix(shell, seq!['/', 'z', 's', 'h']) && !has_suffix(shell, seq!['/', 'f', 'i', 's', 'h'])
                && !has_suffix(shell, seq!['/', 'b', 'a', 's', 'h']) && !has_suffix(shell, seq!['/', 'n', 'u'])
                && !has_suffix(shell, seq!['/', 'p', 'w', 's', 'h']) ==> d == DetectedView::Unsupported(shell)
            &&& d == detection(false, !ps_module_path_set, xonsh_lower, shell, zsh_histdb_found, nu_histdb_found)
        }),
{
    let z = seq!['/', 'z', 's', 'h'];
    let f = seq!['/', 'f', 'i', 's', 'h'];
    let b = seq!['/', 'b', 'a', 's', 'h'];
    let n = seq!['/', 'n', 'u'];
    let w = seq!['/', 'p', 'w', 's', 'h'];
    // the shell names end differently, so at most one of them fits
    if has_suffix(shell, f) {
        assert(shell[shell.len() - 4] == f[1]);
        assert(!has_suffix(shell, z)) by {
            if has_suffix(shell, z) {
                assert(shell.subrange(shell.len() - 4, shell.len() as int)[0] == z[0]);
            }
        }
    }
    if has_suffix(shell, b) {
        assert(!has_suffix(shell, z)) by {
            if has_suffix(shell, z) {
                assert(shell.subrange(shell.len() - 4, shell.len() as int)[0] == z[0]);
                assert(shell.subrange(shell.len() - 5, shell.len() as int)[1] == b[1]);
            }
        }
        assert(!has_suffix(shell, f)) by {
            if has_suffix(shell, f) {
                assert(shell.subrange(shell.len() - 5, shell.len() as int)[1] == f[1]);
                assert(shell.subrange(shell.len() - 5, shell.len() as int)[1] == b[1]);
            }
        }
    }
    if has_suffix(shell, n) {
        assert(!has_suffix(shell, z)) by {
            if has_suffix(shell, z) {
                assert(shell.subrange(shell.len() - 4, shell.len() as int)[3] == z[3]);
                assert(shell.subrange(shell.len() - 3, shell.len() as int)[2] == n[2]);
            }
        }
        assert(!has_suffix(shell, f)) by {
            if has_suffix(shell, f) {
                assert(shell.subrange(shell.len() - 5, shell.len() as int)[4] == f[4]);
                assert(shell.subrange(shell.len() - 3, shell.len() as int)[2] == n[2]);
            }
        }
        assert(!has_suffix(shell, b)) by {
            if has_suffix(shell, b) {
                assert(shell.subrange(shell.len() - 5, shell.len() as int)[4] == b[4]);
                assert(shell.subrange(shell.len() - 3, shell.len() as int)[2] == n[2]);
            }
        }
    }
    if has_suffix(shell, w) {
        assert(!has_suffix(shell, z)) by {
            if has_suffix(shell, z) {
                assert(shell.subrange(shell.len() - 4, shell.len() as int)[1] == z[1]);
                assert(shell.subrange(shell.len() - 5, shell.len() as int)[2] == w[2]);
            }
        }
        assert(!has_suffix(shell, f)) by {
            if has_suffix(shell, f) {
                assert(shell.subrange(shell.len() - 5, shell.len() as int)[1] == f[1]);
                assert(shell.subrange(shell.len() - 5, shell.len() as int)[1] == w[1]);
            }
        }
        assert(!has_suffix(shell, b)) by {
            if has_suffix(shell, b) {
                assert(shell.subrange(shell.len() - 5, shell.len() as int)[1] == b[1]);
                assert(shell.subrange(shell.len() - 5, shell.len() as int)[1] == w[1]);
            }
        }
        assert(!has_suffix(shell, n)) by {
            if has_suffix(shell, n) {
                assert(shell.subrange(shell.len() - 3, shell.len() as int)[2] == n[2]);
                assert(shell.subrange(shell.len() - 5, shell.len() as int)[4] == w[4]);
            }
        }
    }
}

} // verus!
