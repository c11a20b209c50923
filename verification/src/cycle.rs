//! The import cycle and its gates. A cycle walks each vault, probes the
//! embedder, stores every changed page with its embedded chunks, and ends
//! at its checks. A vault that is missing is recorded and skipped; a cycle
//! that finds an existing vault without markdown, discovers nothing at
//! all, cannot reach its embedder, fails to embed a chunk, imports fewer
//! pages than it discovered (less the ones it skipped) or embeds fewer
//! chunks than it imported pages fails, names the failed gate and exits
//! non-zero.
//!
//! The decisions are a state machine: `CycleRun::step` takes what the last
//! piece of outside work found (an event) and says what to do next (an
//! action), ending with the report to record. The run tracks the phase of
//! the cycle, so it accepts events only in the order the work happens.
//! Walking the disk, the HTTP exchange and the database stand outside the
//! library and drive the steps.
use vstd::prelude::*;

use crate::text::{append_chars, chars_of, concat_str, same_text, string_of, strings};

verus! {

broadcast use vstd::string::group_string_axioms;

/// The state of one gate in a report.
#[derive(Clone, Copy, Debug, PartialEq, Eq, Structural)]
pub enum GateState {
    Passed,
    Failed,
    Skipped,
}

/// The checks of a report, by name; a check the cycle did not reach is
/// `None`.
#[derive(Clone, Copy, Debug, PartialEq, Eq, Structural)]
pub struct Gates {
    pub discovered: Option<GateState>,
    pub import: Option<GateState>,
    pub embed: Option<GateState>,
    pub export: Option<GateState>,
}

/// The detail of a report: its gates, what went wrong, and the paths of
/// the vaults that were missing.
#[derive(Clone, Debug)]
pub struct CycleDetail {
    pub gates: Gates,
    pub error: Option<String>,
    pub missing: Vec<String>,
}

/// The outcome of a cycle, as printed and recorded in the ledger.
#[derive(Clone, Debug)]
pub struct CycleReport {
    pub status: String,
    pub discovered: i64,
    pub imported: i64,
    pub skipped: i64,
    pub embedded: i64,
    pub exported: i64,
    pub failed_gate: Option<String>,
    pub detail: CycleDetail,
}

/// The text of an optional string.
pub open spec fn opt_text(o: Option<String>) -> Option<Seq<char>> {
    match o {
        Some(s) => Some(s@),
        None => None,
    }
}

/// A report, as values.
pub struct ReportView {
    pub status: Seq<char>,
    pub discovered: i64,
    pub imported: i64,
    pub skipped: i64,
    pub embedded: i64,
    pub exported: i64,
    pub failed_gate: Option<Seq<char>>,
    pub gates: Gates,
    pub error: Option<Seq<char>>,
    pub missing: Seq<Seq<char>>,
}

impl View for CycleReport {
    type V = ReportView;

    open spec fn view(&self) -> ReportView {
        ReportView {
            status: self.status@,
            discovered: self.discovered,
            imported: self.imported,
            skipped: self.skipped,
            embedded: self.embedded,
            exported: self.exported,
            failed_gate: opt_text(self.failed_gate),
            gates: self.detail.gates,
            error: opt_text(self.detail.error),
            missing: strings(self.detail.missing@),
        }
    }
}

/// The status of a cycle that passed every gate.
pub open spec fn green() -> Seq<char> {
    "green"@
}

/// The status of a cycle that failed a gate.
pub open spec fn failed() -> Seq<char> {
    "failed"@
}

/// The name of the check that vaults exist and hold markdown.
pub open spec fn discovered_gate() -> Seq<char> {
    "discovered"@
}

/// The name of the check that every discovered page was imported or
/// skipped.
pub open spec fn import_gate() -> Seq<char> {
    "import"@
}

/// The name of the check that the embedder answers.
pub open spec fn embed_gate() -> Seq<char> {
    "embed"@
}

/// A report is green exactly when it names no failed gate, and failed
/// exactly when it names one; nothing is exported yet.
pub open spec fn report_consistent(r: ReportView) -> bool {
    &&& r.exported == 0
    &&& (r.status == green() && r.failed_gate is None) || (r.status == failed()
        && r.failed_gate is Some)
}

/// The report of a cycle that failed at `gate`.
pub open spec fn failure(
    discovered: i64,
    imported: i64,
    skipped: i64,
    embedded: i64,
    gate: Seq<char>,
    gates: Gates,
    error: Seq<char>,
    missing: Seq<Seq<char>>,
) -> ReportView {
    ReportView {
        status: failed(),
        discovered,
        imported,
        skipped,
        embedded,
        exported: 0,
        failed_gate: Some(gate),
        gates,
        error: Some(error),
        missing,
    }
}

/// The gates of a cycle that found an existing vault without markdown, or
/// nothing at all.
pub open spec fn discovery_failed_gates() -> Gates {
    Gates { discovered: Some(GateState::Failed), import: None, embed: None, export: None }
}

/// The gates of a cycle whose embedder did not answer.
pub open spec fn embed_failed_gates() -> Gates {
    Gates {
        discovered: Some(GateState::Passed),
        import: Some(GateState::Skipped),
        embed: Some(GateState::Failed),
        export: None,
    }
}

/// The gates of a cycle that failed to embed a chunk, or embedded fewer
/// chunks than it imported pages.
pub open spec fn chunk_failed_gates() -> Gates {
    Gates { discovered: Some(GateState::Passed), import: None, embed: Some(GateState::Failed), export: None }
}

/// The gates of a cycle that imported fewer pages than it should have.
pub open spec fn import_failed_gates() -> Gates {
    Gates { discovered: None, import: Some(GateState::Failed), embed: None, export: None }
}

/// The gates of a green cycle (export is not run yet).
pub open spec fn green_gates() -> Gates {
    Gates {
        discovered: Some(GateState::Passed),
        import: Some(GateState::Passed),
        embed: Some(GateState::Passed),
        export: Some(GateState::Skipped),
    }
}


/// Where a cycle stands: which event it waits for.
#[derive(Clone, Copy, Debug, PartialEq, Eq, Structural)]
pub enum Phase {
    /// Between vaults: the next vault, or the end of the vaults.
    Idle,
    /// A vault was opened and exists: its walk.
    Opened,
    /// A vault was walked and holds `files` markdown files: the probe.
    Walked { files: usize },
    /// `left` pages of the vault are still to be stored.
    Pages { left: usize },
    /// A changed page was stored: `chunks_left` of its chunks are still to
    /// be embedded, and then `pages_left` pages of the vault.
    Chunks { pages_left: usize, chunks_left: usize },
    /// The cycle has ended with a report.
    Finished,
}

/// The counters of a cycle under way, the ids of the vaults it has opened,
/// the paths of those that were missing, and its phase.
pub struct CycleRun {
    pub discovered: i64,
    pub imported: i64,
    pub skipped: i64,
    pub embedded: i64,
    pub vault_ids: Vec<String>,
    pub missing: Vec<String>,
    pub phase: Phase,
}

/// A cycle under way, as values.
pub struct RunView {
    pub discovered: i64,
    pub imported: i64,
    pub skipped: i64,
    pub embedded: i64,
    pub vault_ids: Seq<Seq<char>>,
    pub missing: Seq<Seq<char>>,
    pub phase: Phase,
}

impl View for CycleRun {
    type V = RunView;

    open spec fn view(&self) -> RunView {
        RunView {
            discovered: self.discovered,
            imported: self.imported,
            skipped: self.skipped,
            embedded: self.embedded,
            vault_ids: strings(self.vault_ids@),
            missing: strings(self.missing@),
            phase: self.phase,
        }
    }
}

/// What the outside work of a cycle found.
#[derive(Debug)]
pub enum CycleEvent {
    /// The next vault of the configuration, and whether its directory exists.
    VaultOpened { id: String, path: String, is_dir: bool },
    /// The vault at `path` was walked and holds `files` markdown files.
    VaultWalked { path: String, files: usize },
    /// The embedder was probed; `error` says why it did not answer.
    EmbedderProbed { error: Option<String> },
    /// A discovered page was stored; `changed` says whether its content was
    /// new or different (an unchanged page is skipped), `chunks` how many
    /// chunks it has.
    PageStored { changed: bool, chunks: usize },
    /// One chunk of a changed page was embedded and stored.
    ChunkStored,
    /// Embedding a chunk of a changed page failed; `reason` says why.
    ChunkFailed { reason: String },
    /// Every vault of the configuration has been imported.
    VaultsDone,
}

/// An event, as values.
pub enum EventView {
    VaultOpened { id: Seq<char>, path: Seq<char>, is_dir: bool },
    VaultWalked { path: Seq<char>, files: nat },
    EmbedderProbed { error: Option<Seq<char>> },
    PageStored { changed: bool, chunks: nat },
    ChunkStored,
    ChunkFailed { reason: Seq<char> },
    VaultsDone,
}

impl View for CycleEvent {
    type V = EventView;

    open spec fn view(&self) -> EventView {
        match self {
            CycleEvent::VaultOpened { id, path, is_dir } => EventView::VaultOpened {
                id: id@,
                path: path@,
                is_dir: *is_dir,
            },
            CycleEvent::VaultWalked { path, files } => EventView::VaultWalked {
                path: path@,
                files: *files as nat,
            },
            CycleEvent::EmbedderProbed { error } => EventView::EmbedderProbed {
                error: opt_text(*error),
            },
            CycleEvent::PageStored { changed, chunks } => EventView::PageStored {
                changed: *changed,
                chunks: *chunks as nat,
            },
            CycleEvent::ChunkStored => EventView::ChunkStored,
            CycleEvent::ChunkFailed { reason } => EventView::ChunkFailed { reason: reason@ },
            CycleEvent::VaultsDone => EventView::VaultsDone,
        }
    }
}

/// What the cycle does next.
#[derive(Debug)]
pub enum CycleAction {
    /// The vault just opened is missing: it is recorded; go on to the next.
    SkipVault,
    /// Walk the vault just opened.
    WalkVault,
    /// Probe the embedder.
    ProbeEmbedder,
    /// Store the vault's pages, one `PageStored` each.
    ImportPages,
    /// Embed and store the chunks of the page just stored, one
    /// `ChunkStored` each (a `ChunkFailed` ends the cycle).
    EmbedChunks,
    /// Go on to the next page: the one just stored was unchanged.
    NextPage,
    /// Go on with the work under way.
    Continue,
    /// Record this report in the ledger and end the cycle.
    Finish(CycleReport),
}

/// An action, as values.
pub enum ActionView {
    SkipVault,
    WalkVault,
    ProbeEmbedder,
    ImportPages,
    EmbedChunks,
    NextPage,
    Continue,
    Finish(ReportView),
}

impl View for CycleAction {
    type V = ActionView;

    open spec fn view(&self) -> ActionView {
        match self {
            CycleAction::SkipVault => ActionView::SkipVault,
            CycleAction::WalkVault => ActionView::WalkVault,
            CycleAction::ProbeEmbedder => ActionView::ProbeEmbedder,
            CycleAction::ImportPages => ActionView::ImportPages,
            CycleAction::EmbedChunks => ActionView::EmbedChunks,
            CycleAction::NextPage => ActionView::NextPage,
            CycleAction::Continue => ActionView::Continue,
            CycleAction::Finish(r) => ActionView::Finish(r@),
        }
    }
}

/// The counters of a run never go below zero.
pub open spec fn run_wf(r: RunView) -> bool {
    r.discovered >= 0 && r.imported >= 0 && r.skipped >= 0 && r.embedded >= 0
}

/// The run takes `ev` next: it is the event its phase waits for, and the
/// counters stay within `i64`.
pub open spec fn accepts(r: RunView, ev: EventView) -> bool {
    match ev {
        EventView::VaultOpened { .. } => r.phase is Idle,
        EventView::VaultWalked { files, .. } => r.phase is Opened && files <= usize::MAX
            && r.discovered + files <= i64::MAX,
        EventView::EmbedderProbed { .. } => r.phase is Walked,
        EventView::PageStored { changed, chunks } => match r.phase {
            Phase::Pages { left } => left > 0 && if changed {
                chunks <= usize::MAX && r.imported < i64::MAX
            } else {
                r.skipped < i64::MAX
            },
            _ => false,
        },
        EventView::ChunkStored => match r.phase {
            Phase::Chunks { chunks_left, .. } => chunks_left > 0 && r.embedded < i64::MAX,
            _ => false,
        },
        EventView::ChunkFailed { .. } => r.phase is Chunks,
        EventView::VaultsDone => r.phase is Idle,
    }
}

/// The phase after `n` of a vault's pages remain.
pub open spec fn pages_phase(n: nat) -> Phase {
    if n == 0 {
        Phase::Idle
    } else {
        Phase::Pages { left: n as usize }
    }
}

/// The report at the end of the last vault: failed at the discovered gate
/// when nothing was discovered; at the import gate when
/// `imported != discovered - skipped`; at the embed gate when fewer chunks
/// were embedded than pages imported; green otherwise.
pub open spec fn final_report(r: RunView) -> ReportView {
    if r.discovered == 0 {
        failure(
            r.discovered,
            r.imported,
            r.skipped,
            r.embedded,
            discovered_gate(),
            discovery_failed_gates(),
            "no markdown discovered"@,
            r.missing,
        )
    } else if r.imported != r.discovered - r.skipped {
        failure(
            r.discovered,
            r.imported,
            r.skipped,
            r.embedded,
            import_gate(),
            import_failed_gates(),
            "imported != discovered - skipped"@,
            r.missing,
        )
    } else if r.embedded < r.imported {
        failure(
            r.discovered,
            r.imported,
            r.skipped,
            r.embedded,
            embed_gate(),
            chunk_failed_gates(),
            "embedded < imported"@,
            r.missing,
        )
    } else {
        ReportView {
            status: green(),
            discovered: r.discovered,
            imported: r.imported,
            skipped: r.skipped,
            embedded: r.embedded,
            exported: 0,
            failed_gate: None,
            gates: green_gates(),
            error: None,
            missing: r.missing,
        }
    }
}

/// One step of a cycle: the run after `ev`, and what to do next.
pub open spec fn step_spec(r: RunView, ev: EventView) -> (RunView, ActionView) {
    match ev {
        EventView::VaultOpened { id, path, is_dir } => {
            if !is_dir {
                (
                    RunView { vault_ids: r.vault_ids.push(id), missing: r.missing.push(path), ..r },
                    ActionView::SkipVault,
                )
            } else {
                (
                    RunView { vault_ids: r.vault_ids.push(id), phase: Phase::Opened, ..r },
                    ActionView::WalkVault,
                )
            }
        },
        EventView::VaultWalked { path, files } => {
            if files == 0 {
                (
                    RunView { phase: Phase::Finished, ..r },
                    ActionView::Finish(
                        failure(
                            r.discovered,
                            r.imported,
                            r.skipped,
                            r.embedded,
                            discovered_gate(),
                            discovery_failed_gates(),
                            "no markdown in "@ + path,
                            r.missing,
                        ),
                    ),
                )
            } else {
                (
                    RunView {
                        discovered: (r.discovered + files) as i64,
                        phase: Phase::Walked { files: files as usize },
                        ..r
                    },
                    ActionView::ProbeEmbedder,
                )
            }
        },
        EventView::EmbedderProbed { error } => match error {
            Some(e) => (
                RunView { phase: Phase::Finished, ..r },
                ActionView::Finish(
                    failure(
                        r.discovered,
                        0,
                        0,
                        0,
                        embed_gate(),
                        embed_failed_gates(),
                        "embedder unreachable: "@ + e,
                        r.missing,
                    ),
                ),
            ),
            None => (
                RunView {
                    phase: match r.phase {
                        Phase::Walked { files } => pages_phase(files as nat),
                        _ => r.phase,
                    },
                    ..r
                },
                ActionView::ImportPages,
            ),
        },
        EventView::PageStored { changed, chunks } => {
            let left: nat = match r.phase {
                Phase::Pages { left } => (left - 1) as nat,
                _ => 0,
            };
            if changed {
                (
                    RunView {
                        imported: (r.imported + 1) as i64,
                        phase: if chunks == 0 {
                            pages_phase(left)
                        } else {
                            Phase::Chunks { pages_left: left as usize, chunks_left: chunks as usize }
                        },
                        ..r
                    },
                    ActionView::EmbedChunks,
                )
            } else {
                (
                    RunView { skipped: (r.skipped + 1) as i64, phase: pages_phase(left), ..r },
                    ActionView::NextPage,
                )
            }
        },
        EventView::ChunkStored => {
            let phase = match r.phase {
                Phase::Chunks { pages_left, chunks_left } => if chunks_left > 1 {
                    Phase::Chunks { pages_left, chunks_left: (chunks_left - 1) as usize }
                } else {
                    pages_phase(pages_left as nat)
                },
                _ => r.phase,
            };
            (RunView { embedded: (r.embedded + 1) as i64, phase, ..r }, ActionView::Continue)
        },
        EventView::ChunkFailed { reason } => (
            RunView { phase: Phase::Finished, ..r },
            ActionView::Finish(
                failure(
                    r.discovered,
                    r.imported,
                    r.skipped,
                    r.embedded,
                    embed_gate(),
                    chunk_failed_gates(),
                    "embedding failed: "@ + reason,
                    r.missing,
                ),
            ),
        ),
        EventView::VaultsDone => (
            RunView { phase: Phase::Finished, ..r },
            ActionView::Finish(final_report(r)),
        ),
    }
}

/// The ids of `ids` joined by `sep`.
pub open spec fn joined(ids: Seq<Seq<char>>, sep: char) -> Seq<char>
    decreases ids.len(),
{
    if ids.len() == 0 {
        seq![]
    } else if ids.len() == 1 {
        ids[0]
    } else {
        joined(ids.drop_last(), sep) + seq![sep] + ids.last()
    }
}

fn text(s: &str) -> (out: String)
    ensures
        out@ == s@,
{
    string_of(&chars_of(s))
}

fn copy_texts(v: &Vec<String>) -> (out: Vec<String>)
    ensures
        strings(out@) == strings(v@),
{
    let mut out: Vec<String> = Vec::new();
    let mut i: usize = 0;
    while i < v.len()
        invariant
            i <= v.len(),
            strings(out@) == strings(v@).take(i as int),
        decreases v.len() - i,
    {
        let ghost o = out@;
        let t = text(v[i].as_str());
        out.push(t);
        assert(strings(out@) =~= strings(o).push(t@));
        assert(strings(v@).take(i + 1) =~= strings(v@).take(i as int).push(v@[i as int]@));
        i = i + 1;
    }
    assert(strings(v@).take(v.len() as int) =~= strings(v@));
    out
}

fn failure_report(
    discovered: i64,
    imported: i64,
    skipped: i64,
    embedded: i64,
    gate: &str,
    gates: Gates,
    error: String,
    missing: &Vec<String>,
) -> (out: CycleReport)
    ensures
        out@ == failure(discovered, imported, skipped, embedded, gate@, gates, error@, strings(missing@)),
{
    CycleReport {
        status: text("failed"),
        discovered,
        imported,
        skipped,
        embedded,
        exported: 0,
        failed_gate: Some(text(gate)),
        detail: CycleDetail { gates, error: Some(error), missing: copy_texts(missing) },
    }
}

impl CycleRun {
    /// A cycle about to start: nothing counted, no vault opened, waiting for
    /// the first vault.
    pub fn new() -> (r: CycleRun)
        ensures
            r@ == fresh_run(),
    {
        let r = CycleRun {
            discovered: 0,
            imported: 0,
            skipped: 0,
            embedded: 0,
            vault_ids: Vec::new(),
            missing: Vec::new(),
            phase: Phase::Idle,
        };
        assert(strings(r.vault_ids@) =~= Seq::<Seq<char>>::empty());
        assert(strings(r.missing@) =~= Seq::<Seq<char>>::empty());
        r
    }

    /// Whether the run takes `ev` next.
    pub fn accepts(&self, ev: &CycleEvent) -> (b: bool)
        ensures
            b == accepts(self@, ev@),
    {
        match ev {
            CycleEvent::VaultOpened { .. } => self.phase == Phase::Idle,
            CycleEvent::VaultWalked { files, .. } => {
                self.phase == Phase::Opened && *files as i128 + self.discovered as i128
                    <= i64::MAX as i128
            },
            CycleEvent::EmbedderProbed { .. } => match self.phase {
                Phase::Walked { .. } => true,
                _ => false,
            },
            CycleEvent::PageStored { changed, .. } => match self.phase {
                Phase::Pages { left } => left > 0 && if *changed {
                    self.imported < i64::MAX
                } else {
                    self.skipped < i64::MAX
                },
                _ => false,
            },
            CycleEvent::ChunkStored => match self.phase {
                Phase::Chunks { chunks_left, .. } => chunks_left > 0 && self.embedded < i64::MAX,
                _ => false,
            },
            CycleEvent::ChunkFailed { .. } => match self.phase {
                Phase::Chunks { .. } => true,
                _ => false,
            },
            CycleEvent::VaultsDone => self.phase == Phase::Idle,
        }
    }

    fn pages_phase_exec(n: usize) -> (p: Phase)
        ensures
            p == pages_phase(n as nat),
    {
        if n == 0 {
            Phase::Idle
        } else {
            Phase::Pages { left: n }
        }
    }

    /// One step of the cycle: takes what the last piece of outside work
    /// found and returns what to do next, as `step_spec` says.
    pub fn step(&mut self, ev: CycleEvent) -> (act: CycleAction)
        requires
            run_wf(old(self)@),
            accepts(old(self)@, ev@),
        ensures
            (final(self)@, act@) == step_spec(old(self)@, ev@),
            run_wf(final(self)@),
    {
        match ev {
            CycleEvent::VaultOpened { id, path, is_dir } => {
                let ghost ids = self.vault_ids@;
                self.vault_ids.push(id);
                assert(strings(self.vault_ids@) =~= strings(ids).push(id@));
                if !is_dir {
                    let ghost m = self.missing@;
                    self.missing.push(path);
                    assert(strings(self.missing@) =~= strings(m).push(path@));
                    CycleAction::SkipVault
                } else {
                    self.phase = Phase::Opened;
                    CycleAction::WalkVault
                }
            },
            CycleEvent::VaultWalked { path, files } => {
                if files == 0 {
                    let msg = concat_str("no markdown in ", path.as_str());
                    self.phase = Phase::Finished;
                    CycleAction::Finish(
                        failure_report(
                            self.discovered,
                            self.imported,
                            self.skipped,
                            self.embedded,
                            "discovered",
                            Gates {
                                discovered: Some(GateState::Failed),
                                import: None,
                                embed: None,
                                export: None,
                            },
                            msg,
                            &self.missing,
                        ),
                    )
                } else {
                    self.discovered = self.discovered + files as i64;
                    self.phase = Phase::Walked { files };
                    CycleAction::ProbeEmbedder
                }
            },
            CycleEvent::EmbedderProbed { error } => match error {
                Some(e) => {
                    let msg = concat_str("embedder unreachable: ", e.as_str());
                    self.phase = Phase::Finished;
                    CycleAction::Finish(
                        failure_report(
                            self.discovered,
                            0,
                            0,
                            0,
                            "embed",
                            Gates {
                                discovered: Some(GateState::Passed),
                                import: Some(GateState::Skipped),
                                embed: Some(GateState::Failed),
                                export: None,
                            },
                            msg,
                            &self.missing,
                        ),
                    )
                },
                None => {
                    match self.phase {
                        Phase::Walked { files } => {
                            self.phase = Self::pages_phase_exec(files);
                        },
                        _ => {},
                    }
                    CycleAction::ImportPages
                },
            },
            CycleEvent::PageStored { changed, chunks } => {
                let left: usize = match self.phase {
                    Phase::Pages { left } => left - 1,
                    _ => 0,
                };
                if changed {
                    self.imported = self.imported + 1;
                    if chunks == 0 {
                        self.phase = Self::pages_phase_exec(left);
                    } else {
                        self.phase = Phase::Chunks { pages_left: left, chunks_left: chunks };
                    }
                    CycleAction::EmbedChunks
                } else {
                    self.skipped = self.skipped + 1;
                    self.phase = Self::pages_phase_exec(left);
                    CycleAction::NextPage
                }
            },
            CycleEvent::ChunkStored => {
                match self.phase {
                    Phase::Chunks { pages_left, chunks_left } => {
                        if chunks_left > 1 {
                            self.phase = Phase::Chunks { pages_left, chunks_left: chunks_left - 1 };
                        } else {
                            self.phase = Self::pages_phase_exec(pages_left);
                        }
                    },
                    _ => {},
                }
                self.embedded = self.embedded + 1;
                CycleAction::Continue
            },
            CycleEvent::ChunkFailed { reason } => {
                let msg = concat_str("embedding failed: ", reason.as_str());
                self.phase = Phase::Finished;
                CycleAction::Finish(
                    failure_report(
                        self.discovered,
                        self.imported,
                        self.skipped,
                        self.embedded,
                        "embed",
                        Gates {
                            discovered: Some(GateState::Passed),
                            import: None,
                            embed: Some(GateState::Failed),
                            export: None,
                        },
                        msg,
                        &self.missing,
                    ),
                )
            },
            CycleEvent::VaultsDone => {
                let report = self.final_report();
                self.phase = Phase::Finished;
                CycleAction::Finish(report)
            },
        }
    }

    /// The report at the end of the last vault.
    fn final_report(&self) -> (out: CycleReport)
        requires
            run_wf(self@),
        ensures
            out@ == final_report(self@),
            out@.status == green() <==> (self.discovered >= 1 && self.imported == self.discovered
                - self.skipped && self.embedded >= self.imported),
    {
        proof {
            lemma_final_verdict(self@);
        }
        if self.discovered == 0 {
            failure_report(
                self.discovered,
                self.imported,
                self.skipped,
                self.embedded,
                "discovered",
                Gates { discovered: Some(GateState::Failed), import: None, embed: None, export: None },
                text("no markdown discovered"),
                &self.missing,
            )
        } else if self.imported != self.discovered - self.skipped {
            failure_report(
                self.discovered,
                self.imported,
                self.skipped,
                self.embedded,
                "import",
                Gates { discovered: None, import: Some(GateState::Failed), embed: None, export: None },
                text("imported != discovered - skipped"),
                &self.missing,
            )
        } else if self.embedded < self.imported {
            failure_report(
                self.discovered,
                self.imported,
                self.skipped,
                self.embedded,
                "embed",
                Gates {
                    discovered: Some(GateState::Passed),
                    import: None,
                    embed: Some(GateState::Failed),
                    export: None,
                },
                text("embedded < imported"),
                &self.missing,
            )
        } else {
            CycleReport {
                status: text("green"),
                discovered: self.discovered,
                imported: self.imported,
                skipped: self.skipped,
                embedded: self.embedded,
                exported: 0,
                failed_gate: None,
                detail: CycleDetail {
                    gates: Gates {
                        discovered: Some(GateState::Passed),
                        import: Some(GateState::Passed),
                        embed: Some(GateState::Passed),
                        export: Some(GateState::Skipped),
                    },
                    error: None,
                    missing: copy_texts(&self.missing),
                },
            }
        }
    }

    /// The ids of the vaults opened so far, joined by commas, as the ledger
    /// records them.
    pub fn vault_list(&self) -> (out: String)
        ensures
            out@ == joined(self@.vault_ids, ','),
    {
        let mut out: Vec<char> = Vec::new();
        let mut i: usize = 0;
        while i < self.vault_ids.len()
            invariant
                i <= self.vault_ids@.len(),
                out@ == joined(strings(self.vault_ids@).take(i as int), ','),
            decreases self.vault_ids.len() - i,
        {
            let ghost done = strings(self.vault_ids@).take(i as int);
            let ghost next = strings(self.vault_ids@).take(i + 1);
            assert(next.drop_last() =~= done);
            assert(next.last() == self.vault_ids@[i as int]@);
            if i > 0 {
                out.push(',');
            }
            let id = chars_of(self.vault_ids[i].as_str());
            append_chars(&mut out, &id);
            proof {
                if i == 0 {
                    assert(out@ =~= next[0]);
                } else {
                    assert(out@ =~= joined(done, ',') + seq![','] + next.last());
                }
            }
            i = i + 1;
        }
        assert(strings(self.vault_ids@).take(self.vault_ids@.len() as int) =~= strings(
            self.vault_ids@,
        ));
        string_of(&out)
    }
}

/// `exit_code`: 0 for a green report, 1 otherwise.
pub fn exit_code(r: &CycleReport) -> (code: i32)
    ensures
        code == if r.status@ == green() {
            0i32
        } else {
            1i32
        },
{
    if same_text(r.status.as_str(), "green") {
        0
    } else {
        1
    }
}

/// Why `ensure_green` refused a report: the check it failed.
#[derive(Clone, Debug)]
pub struct GateError {
    pub failed_gate: Option<String>,
}

/// The `Debug` text of a string, as `impl Debug for str` writes it: quoted,
/// with special characters escaped.
pub uninterp spec fn debug_str_of(s: Seq<char>) -> Seq<char>;

/// Calls `format!("{:?}", s)`, which writes `s` through std's
/// `impl Debug for str`. The contract claims only that the text depends on
/// `s` alone, naming it `debug_str_of(s)`; the quoting and escaping rules
/// are not written out.
#[verifier::external_body]
fn debug_str(s: &str) -> (out: String)
    ensures
        out@ == debug_str_of(s@),
{
    format!("{:?}", s)
}

/// The message of a refused report, given the `Debug` text of the name of
/// its failed gate, or `None` when it names none: `cycle failed at gate `
/// followed by that text inside `Some(..)`, or by `None`.
pub open spec fn gate_message(gate_debug: Option<Seq<char>>) -> Seq<char> {
    "cycle failed at gate "@ + match gate_debug {
        Some(d) => "Some("@ + d + ")"@,
        None => "None"@,
    }
}

/// The message of a refused report, from the `Debug` text of the name of
/// its failed gate.
pub fn gate_failure_message(gate_debug: Option<String>) -> (out: String)
    ensures
        out@ == gate_message(opt_text(gate_debug)),
{
    let gate = match gate_debug {
        Some(d) => {
            let open = concat_str("Some(", d.as_str());
            concat_str(open.as_str(), ")")
        },
        None => text("None"),
    };
    concat_str("cycle failed at gate ", gate.as_str())
}

impl GateError {
    /// The message of the error: `cycle failed at gate ` and the failed
    /// gate written as `Debug` writes an `Option<String>`.
    pub fn message(&self) -> (out: String)
        ensures
            out@ == gate_message(
                match self.failed_gate {
                    Some(g) => Some(debug_str_of(g@)),
                    None => None,
                },
            ),
    {
        let gate_debug = match &self.failed_gate {
            Some(g) => Some(debug_str(g.as_str())),
            None => None,
        };
        gate_failure_message(gate_debug)
    }
}

/// `ensure_green`: `Ok` for a green report; otherwise an error naming the
/// report's failed gate.
pub fn ensure_green(r: &CycleReport) -> (out: Result<(), GateError>)
    ensures
        out is Ok <==> r.status@ == green(),
        out matches Err(e) ==> opt_text(e.failed_gate) == opt_text(r.failed_gate),
{
    if !same_text(r.status.as_str(), "green") {
        let failed_gate = match &r.failed_gate {
            Some(g) => Some(text(g.as_str())),
            None => None,
        };
        return Err(GateError { failed_gate });
    }
    Ok(())
}


// ---------------------------------------------------------------------------
// Laws of the cycle
// ---------------------------------------------------------------------------

/// Every report a cycle ends with is consistent: green with no failed gate,
/// or failed with one.
pub proof fn lemma_reports_consistent(r: RunView, ev: EventView)
    ensures
        step_spec(r, ev).1 matches ActionView::Finish(rep) ==> report_consistent(rep),
{
    reveal_strlit("green");
    reveal_strlit("failed");
}

/// `green` and `failed` are different statuses.
proof fn lemma_statuses_differ()
    ensures
        green() != failed(),
{
    reveal_strlit("green");
    reveal_strlit("failed");
    assert(green()[0] != failed()[0]);
}

/// A green report passed the import gate: every discovered page was
/// imported or skipped.
pub proof fn lemma_green_passes_import_gate(r: RunView, ev: EventView)
    ensures
        step_spec(r, ev).1 matches ActionView::Finish(rep) ==> (rep.status == green()
            ==> rep.imported == rep.discovered - rep.skipped),
{
    lemma_statuses_differ();
}

/// An embedder that does not answer fails the cycle at the embed gate, and
/// the report claims no page imported, skipped or embedded.
pub proof fn lemma_dead_embedder_fails(r: RunView, e: Seq<char>)
    ensures
        step_spec(r, EventView::EmbedderProbed { error: Some(e) }).1 matches ActionView::Finish(rep)
            && rep.status == failed() && rep.failed_gate == Some(embed_gate()) && rep.imported == 0
            && rep.skipped == 0 && rep.embedded == 0,
{
}

/// A chunk that cannot be embedded fails the cycle at the embed gate; the
/// report counts only the chunks embedded before it.
pub proof fn lemma_chunk_failure_fails(r: RunView, e: Seq<char>)
    ensures
        step_spec(r, EventView::ChunkFailed { reason: e }).1 matches ActionView::Finish(rep)
            && rep.status == failed() && rep.failed_gate == Some(embed_gate()) && rep.embedded
            == r.embedded && rep.imported == r.imported,
{
}

/// An existing vault without markdown fails the cycle at the discovered
/// gate.
pub proof fn lemma_empty_vault_fails(r: RunView, path: Seq<char>)
    ensures
        step_spec(r, EventView::VaultWalked { path, files: 0 }).1 matches ActionView::Finish(rep)
            && rep.status == failed() && rep.failed_gate == Some(discovered_gate()),
{
}

/// A missing vault does not end the cycle: it is recorded among the missing
/// vaults, and the run waits for the next vault or the end of the vaults.
pub proof fn lemma_missing_vault_skipped(r: RunView, id: Seq<char>, path: Seq<char>)
    requires
        r.phase is Idle,
    ensures
        ({
            let (next, act) = step_spec(r, EventView::VaultOpened { id, path, is_dir: false });
            &&& act is SkipVault
            &&& next.missing == r.missing.push(path)
            &&& next.vault_ids == r.vault_ids.push(id)
            &&& next.discovered == r.discovered && next.imported == r.imported
            &&& next.skipped == r.skipped && next.embedded == r.embedded
            &&& next.phase is Idle
        }),
{
}

/// A run that has not counted anything yet, waiting for its first vault.
pub open spec fn fresh_run() -> RunView {
    RunView {
        discovered: 0,
        imported: 0,
        skipped: 0,
        embedded: 0,
        vault_ids: seq![],
        missing: seq![],
        phase: Phase::Idle,
    }
}

/// The run after the events `evs`, from a fresh run.
pub open spec fn replay(evs: Seq<EventView>) -> RunView
    decreases evs.len(),
{
    if evs.len() == 0 {
        fresh_run()
    } else {
        step_spec(replay(evs.drop_last()), evs.last()).0
    }
}

/// The events `evs` can happen in this order: each is taken by the run that
/// the events before it leave.
pub open spec fn valid(evs: Seq<EventView>) -> bool
    decreases evs.len(),
{
    if evs.len() == 0 {
        true
    } else {
        valid(evs.drop_last()) && accepts(replay(evs.drop_last()), evs.last())
    }
}

/// What the last of the events `evs` makes the cycle do.
pub open spec fn last_action(evs: Seq<EventView>) -> ActionView
    recommends
        evs.len() > 0,
{
    step_spec(replay(evs.drop_last()), evs.last()).1
}

/// How many markdown files the events report found in the vaults walked.
pub open spec fn files_walked(evs: Seq<EventView>) -> int
    decreases evs.len(),
{
    if evs.len() == 0 {
        0
    } else {
        files_walked(evs.drop_last()) + match evs.last() {
            EventView::VaultWalked { files, .. } => files as int,
            _ => 0int,
        }
    }
}

/// How many pages the events report stored.
pub open spec fn pages_stored(evs: Seq<EventView>) -> int
    decreases evs.len(),
{
    if evs.len() == 0 {
        0
    } else {
        pages_stored(evs.drop_last()) + if evs.last() is PageStored {
            1int
        } else {
            0int
        }
    }
}

/// How many chunks the changed pages of the events have.
pub open spec fn chunks_announced(evs: Seq<EventView>) -> int
    decreases evs.len(),
{
    if evs.len() == 0 {
        0
    } else {
        chunks_announced(evs.drop_last()) + match evs.last() {
            EventView::PageStored { changed: true, chunks } => chunks as int,
            _ => 0int,
        }
    }
}

/// How many pages the events report stored as new or changed.
pub open spec fn changed_pages(evs: Seq<EventView>) -> int
    decreases evs.len(),
{
    if evs.len() == 0 {
        0
    } else {
        changed_pages(evs.drop_last()) + if evs.last() matches EventView::PageStored {
            changed: true,
            ..
        } {
            1int
        } else {
            0int
        }
    }
}

/// How many chunks the events report embedded and stored.
pub open spec fn chunks_stored(evs: Seq<EventView>) -> int
    decreases evs.len(),
{
    if evs.len() == 0 {
        0
    } else {
        chunks_stored(evs.drop_last()) + if evs.last() is ChunkStored {
            1int
        } else {
            0int
        }
    }
}

/// The paths of the vaults the events found missing, in order.
pub open spec fn missing_paths(evs: Seq<EventView>) -> Seq<Seq<char>>
    decreases evs.len(),
{
    if evs.len() == 0 {
        seq![]
    } else {
        let before = missing_paths(evs.drop_last());
        match evs.last() {
            EventView::VaultOpened { path, is_dir: false, .. } => before.push(path),
            _ => before,
        }
    }
}

/// No vault walked along the events was empty.
pub open spec fn no_empty_walk(evs: Seq<EventView>) -> bool
    decreases evs.len(),
{
    if evs.len() == 0 {
        true
    } else {
        no_empty_walk(evs.drop_last()) && !(evs.last() matches EventView::VaultWalked {
            files,
            ..
        } && files == 0)
    }
}

/// Every page stored along the events was unchanged.
pub open spec fn all_unchanged(evs: Seq<EventView>) -> bool
    decreases evs.len(),
{
    if evs.len() == 0 {
        true
    } else {
        all_unchanged(evs.drop_last()) && !(evs.last() matches EventView::PageStored {
            changed: true,
            ..
        })
    }
}

/// The pages of the vault under way that are still to be stored.
pub open spec fn pending_pages(p: Phase) -> int {
    match p {
        Phase::Walked { files } => files as int,
        Phase::Pages { left } => left as int,
        Phase::Chunks { pages_left, .. } => pages_left as int,
        _ => 0,
    }
}

/// The chunks of the page under way that are still to be embedded.
pub open spec fn pending_chunks(p: Phase) -> int {
    match p {
        Phase::Chunks { chunks_left, .. } => chunks_left as int,
        _ => 0,
    }
}

/// What holds of the run after any events that can happen in order.
pub open spec fn replay_inv(evs: Seq<EventView>) -> bool {
    let r = replay(evs);
    &&& run_wf(r)
    &&& r.discovered == files_walked(evs)
    &&& r.imported + r.skipped == pages_stored(evs)
    &&& r.embedded == chunks_stored(evs)
    &&& r.imported == changed_pages(evs)
    &&& r.missing == missing_paths(evs)
    &&& all_unchanged(evs) ==> r.imported == 0 && chunks_announced(evs) == 0
    &&& r.phase !is Finished ==> {
        &&& r.imported + r.skipped + pending_pages(r.phase) == r.discovered
        &&& r.embedded + pending_chunks(r.phase) == chunks_announced(evs)
        &&& no_empty_walk(evs)
    }
}

/// Along any events that can happen in order, the run counts every stored
/// page as imported or skipped, every file found as discovered, every chunk
/// stored as embedded and every missing vault as missing; until the cycle
/// ends, the pages and chunks still to come make up the difference.
pub proof fn lemma_replay_invariant(evs: Seq<EventView>)
    requires
        valid(evs),
    ensures
        replay_inv(evs),
    decreases evs.len(),
{
    if evs.len() > 0 {
        lemma_replay_invariant(evs.drop_last());
    }
}

/// What a green report `rep` at the end of the events `evs` says of them.
pub open spec fn green_facts(rep: ReportView, evs: Seq<EventView>) -> bool {
    &&& rep.discovered >= 1
    &&& rep.discovered == files_walked(evs)
    &&& rep.imported + rep.skipped == rep.discovered
    &&& rep.imported + rep.skipped == pages_stored(evs)
    &&& rep.embedded >= rep.imported
    &&& rep.embedded == chunks_announced(evs)
    &&& rep.embedded == chunks_stored(evs)
    &&& rep.missing == missing_paths(evs)
    &&& no_empty_walk(evs)
}

/// A green cycle saw everything it counted: it discovered at least one
/// file, imported or skipped every file it discovered, embedded every chunk
/// of the pages it imported and at least one per imported page, walked no
/// vault without markdown, and records the missing vaults.
pub proof fn lemma_green_cycle(evs: Seq<EventView>)
    requires
        valid(evs),
        evs.len() > 0,
    ensures
        last_action(evs) matches ActionView::Finish(rep) ==> (rep.status == green()
            ==> green_facts(rep, evs)),
{
    lemma_replay_invariant(evs.drop_last());
    lemma_statuses_differ();
}

/// A cycle that discovers no markdown at all, such as one over a
/// configuration with no vaults, fails at the discovered gate.
pub proof fn lemma_nothing_discovered_fails(evs: Seq<EventView>)
    requires
        valid(evs),
        evs.len() > 0,
        evs.last() == EventView::VaultsDone,
        files_walked(evs) == 0,
    ensures
        last_action(evs) matches ActionView::Finish(rep) && rep.status == failed()
            && rep.failed_gate == Some(discovered_gate()),
{
    lemma_replay_invariant(evs.drop_last());
}

/// A cycle in which every stored page was unchanged, as a second cycle over
/// vaults and a brain that did not change, imports and embeds nothing and
/// counts every discovered page as skipped; it is green exactly when it
/// discovered something.
pub proof fn lemma_unchanged_cycle(evs: Seq<EventView>)
    requires
        valid(evs),
        evs.len() > 0,
        evs.last() == EventView::VaultsDone,
        all_unchanged(evs),
    ensures
        last_action(evs) matches ActionView::Finish(rep) && rep.imported == 0 && rep.embedded == 0
            && rep.skipped == rep.discovered && rep.discovered == files_walked(evs) && (rep.status
            == green() <==> rep.discovered >= 1),
{
    lemma_replay_invariant(evs.drop_last());
    lemma_statuses_differ();
}

/// The verdict at the end of the vaults: green exactly when something was
/// discovered, every discovered page was imported or skipped, and at least
/// as many chunks were embedded as pages imported; a green report carries
/// the run's counts and no failed gate, a failed one names the first check
/// that failed.
pub proof fn lemma_final_verdict(r: RunView)
    requires
        run_wf(r),
    ensures
        ({
            let rep = final_report(r);
            &&& rep.status == green() <==> (r.discovered >= 1 && r.imported == r.discovered
                - r.skipped && r.embedded >= r.imported)
            &&& rep.status == green() || rep.status == failed()
            &&& rep.discovered == r.discovered && rep.imported == r.imported
            &&& rep.skipped == r.skipped && rep.embedded == r.embedded
            &&& rep.status == green() ==> rep.failed_gate is None
            &&& r.discovered == 0 ==> rep.failed_gate == Some(discovered_gate())
            &&& (r.discovered >= 1 && r.imported != r.discovered - r.skipped) ==> rep.failed_gate
                == Some(import_gate())
            &&& (r.discovered >= 1 && r.imported == r.discovered - r.skipped && r.embedded
                < r.imported) ==> rep.failed_gate == Some(embed_gate())
        }),
{
    lemma_statuses_differ();
}

/// At the end of any events that can happen in order, the cycle is green
/// exactly when the vaults held at least one markdown file and at least as
/// many chunks were embedded as new or changed pages were stored; every
/// page found was stored, new, changed or unchanged, along the way.
pub proof fn lemma_green_exactly(evs: Seq<EventView>)
    requires
        valid(evs),
        evs.len() > 0,
        evs.last() == EventView::VaultsDone,
    ensures
        pages_stored(evs) == files_walked(evs),
        last_action(evs) matches ActionView::Finish(rep) && (rep.status == green() <==> (
        files_walked(evs) >= 1 && chunks_stored(evs) >= changed_pages(evs))),
{
    lemma_replay_invariant(evs.drop_last());
    lemma_final_verdict(replay(evs.drop_last()));
}

} // verus!
