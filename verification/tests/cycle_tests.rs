use cos_engine::cycle::{
    ensure_green, exit_code, gate_failure_message, CycleAction, CycleEvent, CycleReport, CycleRun,
    GateState,
};
use cos_engine::db::{chunk_records, page_key, plan_upsert, UpsertPlan};
use cos_engine::ingest::sha256;

fn open(run: &mut CycleRun, id: &str, path: &str, is_dir: bool) -> CycleAction {
    run.step(CycleEvent::VaultOpened { id: id.into(), path: path.into(), is_dir })
}

fn finish(a: CycleAction) -> CycleReport {
    match a {
        CycleAction::Finish(r) => r,
        other => panic!("expected a report, got {other:?}"),
    }
}

/// Runs one vault whose pages are stored with the given `changed` flags,
/// one chunk per changed page.
fn one_vault(pages: &[bool]) -> CycleReport {
    let mut run = CycleRun::new();
    assert!(matches!(open(&mut run, "fixture", "/v", true), CycleAction::WalkVault));
    assert!(matches!(
        run.step(CycleEvent::VaultWalked { path: "/v".into(), files: pages.len() }),
        CycleAction::ProbeEmbedder
    ));
    assert!(matches!(
        run.step(CycleEvent::EmbedderProbed { error: None }),
        CycleAction::ImportPages
    ));
    for &changed in pages {
        match run.step(CycleEvent::PageStored { changed, chunks: 1 }) {
            CycleAction::EmbedChunks => {
                assert!(changed);
                assert!(matches!(run.step(CycleEvent::ChunkStored), CycleAction::Continue));
            }
            CycleAction::NextPage => assert!(!changed),
            other => panic!("unexpected {other:?}"),
        }
    }
    assert_eq!(run.vault_list(), "fixture");
    finish(run.step(CycleEvent::VaultsDone))
}

#[test]
fn clean_fixture_cycle_is_green() {
    let r = one_vault(&[true, true, true]);
    assert_eq!(r.status, "green");
    assert_eq!((r.discovered, r.imported, r.skipped, r.embedded), (3, 3, 0, 3));
    assert_eq!(r.failed_gate, None);
    assert_eq!(r.detail.gates.discovered, Some(GateState::Passed));
    assert_eq!(r.detail.gates.import, Some(GateState::Passed));
    assert_eq!(r.detail.gates.embed, Some(GateState::Passed));
    assert_eq!(r.detail.gates.export, Some(GateState::Skipped));
    assert_eq!(r.detail.error, None);
    assert_eq!(exit_code(&r), 0);
    assert!(ensure_green(&r).is_ok());
}

#[test]
fn second_cycle_without_changes_counts_skips() {
    let r = one_vault(&[false, false, false]);
    assert_eq!(r.status, "green");
    assert_eq!((r.discovered, r.imported, r.skipped, r.embedded), (3, 0, 3, 0));
}

#[test]
fn dead_embedder_fails_at_embed_gate() {
    let mut run = CycleRun::new();
    open(&mut run, "fixture", "/v", true);
    run.step(CycleEvent::VaultWalked { path: "/v".into(), files: 3 });
    let r = finish(run.step(CycleEvent::EmbedderProbed {
        error: Some("connection refused".into()),
    }));
    assert_eq!(r.status, "failed");
    assert_eq!(r.failed_gate.as_deref(), Some("embed"));
    assert_eq!((r.discovered, r.imported, r.skipped, r.embedded), (3, 0, 0, 0));
    assert_eq!(r.detail.error.as_deref(), Some("embedder unreachable: connection refused"));
    assert_eq!(r.detail.gates.discovered, Some(GateState::Passed));
    assert_eq!(r.detail.gates.import, Some(GateState::Skipped));
    assert_eq!(r.detail.gates.embed, Some(GateState::Failed));
    assert_eq!(exit_code(&r), 1);
    let e = ensure_green(&r).unwrap_err();
    assert_eq!(e.failed_gate.as_deref(), Some("embed"));
    assert_eq!(e.message(), "cycle failed at gate Some(\"embed\")");
}

#[test]
fn failed_chunk_fails_at_embed_gate() {
    let mut run = CycleRun::new();
    open(&mut run, "fixture", "/v", true);
    run.step(CycleEvent::VaultWalked { path: "/v".into(), files: 2 });
    run.step(CycleEvent::EmbedderProbed { error: None });
    assert!(matches!(
        run.step(CycleEvent::PageStored { changed: true, chunks: 2 }),
        CycleAction::EmbedChunks
    ));
    assert!(matches!(run.step(CycleEvent::ChunkStored), CycleAction::Continue));
    let r = finish(run.step(CycleEvent::ChunkFailed { reason: "timed out".into() }));
    assert_eq!(r.status, "failed");
    assert_eq!(r.failed_gate.as_deref(), Some("embed"));
    assert_eq!((r.discovered, r.imported, r.skipped, r.embedded), (2, 1, 0, 1));
    assert_eq!(r.detail.error.as_deref(), Some("embedding failed: timed out"));
    assert_eq!(r.detail.gates.discovered, Some(GateState::Passed));
    assert_eq!(r.detail.gates.embed, Some(GateState::Failed));
    assert_eq!(exit_code(&r), 1);
}

#[test]
fn missing_vault_is_recorded_and_skipped() {
    let mut run = CycleRun::new();
    assert!(matches!(open(&mut run, "gone", "/nowhere", false), CycleAction::SkipVault));
    assert!(matches!(open(&mut run, "fixture", "/v", true), CycleAction::WalkVault));
    run.step(CycleEvent::VaultWalked { path: "/v".into(), files: 1 });
    run.step(CycleEvent::EmbedderProbed { error: None });
    run.step(CycleEvent::PageStored { changed: true, chunks: 1 });
    run.step(CycleEvent::ChunkStored);
    assert_eq!(run.vault_list(), "gone,fixture");
    let r = finish(run.step(CycleEvent::VaultsDone));
    assert_eq!(r.status, "green");
    assert_eq!(r.failed_gate, None);
    assert_eq!((r.discovered, r.imported, r.embedded), (1, 1, 1));
    assert_eq!(r.detail.missing, vec!["/nowhere".to_string()]);
    assert_eq!(exit_code(&r), 0);
}

#[test]
fn only_missing_vaults_fail_at_discovered_gate() {
    let mut run = CycleRun::new();
    assert!(matches!(open(&mut run, "gone", "/nowhere", false), CycleAction::SkipVault));
    let r = finish(run.step(CycleEvent::VaultsDone));
    assert_eq!(r.status, "failed");
    assert_eq!(r.failed_gate.as_deref(), Some("discovered"));
    assert_eq!(r.detail.error.as_deref(), Some("no markdown discovered"));
    assert_eq!(r.detail.gates.discovered, Some(GateState::Failed));
    assert_eq!(r.detail.missing, vec!["/nowhere".to_string()]);
    assert_eq!(exit_code(&r), 1);
}

#[test]
fn vault_without_markdown_fails_at_discovered_gate() {
    let mut run = CycleRun::new();
    open(&mut run, "fixture", "/v", true);
    let r = finish(run.step(CycleEvent::VaultWalked { path: "/v".into(), files: 0 }));
    assert_eq!(r.failed_gate.as_deref(), Some("discovered"));
    assert_eq!(r.detail.error.as_deref(), Some("no markdown in /v"));
    assert_eq!(exit_code(&r), 1);
}

#[test]
fn page_without_chunks_fails_the_embed_check() {
    let mut run = CycleRun::new();
    open(&mut run, "fixture", "/v", true);
    run.step(CycleEvent::VaultWalked { path: "/v".into(), files: 1 });
    run.step(CycleEvent::EmbedderProbed { error: None });
    run.step(CycleEvent::PageStored { changed: true, chunks: 0 });
    let r = finish(run.step(CycleEvent::VaultsDone));
    assert_eq!(r.status, "failed");
    assert_eq!(r.failed_gate.as_deref(), Some("embed"));
    assert_eq!(r.detail.error.as_deref(), Some("embedded < imported"));
    assert_eq!((r.imported, r.embedded), (1, 0));
}

#[test]
fn two_vaults_are_counted_together() {
    let mut run = CycleRun::new();
    for (id, n) in [("fixture", 2usize), ("vault-1", 1)] {
        open(&mut run, id, "/v", true);
        run.step(CycleEvent::VaultWalked { path: "/v".into(), files: n });
        run.step(CycleEvent::EmbedderProbed { error: None });
        for _ in 0..n {
            run.step(CycleEvent::PageStored { changed: true, chunks: 2 });
            run.step(CycleEvent::ChunkStored);
            run.step(CycleEvent::ChunkStored);
        }
    }
    assert_eq!(run.vault_list(), "fixture,vault-1");
    let r = finish(run.step(CycleEvent::VaultsDone));
    assert_eq!(r.status, "green");
    assert_eq!((r.discovered, r.imported, r.embedded), (3, 3, 6));
}

#[test]
fn no_vaults_fails_at_discovered_gate() {
    let mut run = CycleRun::new();
    assert_eq!(run.vault_list(), "");
    let r = finish(run.step(CycleEvent::VaultsDone));
    assert_eq!(r.status, "failed");
    assert_eq!(r.failed_gate.as_deref(), Some("discovered"));
    assert_eq!(r.discovered, 0);
    assert_eq!(exit_code(&r), 1);
    assert!(ensure_green(&r).is_err());
}

#[test]
fn accepts_follows_the_phase_and_guards_the_counters() {
    let mut run = CycleRun::new();
    assert!(run.accepts(&CycleEvent::VaultsDone));
    assert!(!run.accepts(&CycleEvent::ChunkStored));
    assert!(!run.accepts(&CycleEvent::PageStored { changed: true, chunks: 1 }));
    assert!(!run.accepts(&CycleEvent::EmbedderProbed { error: None }));
    open(&mut run, "fixture", "/v", true);
    assert!(!run.accepts(&CycleEvent::VaultsDone));
    run.discovered = i64::MAX - 1;
    assert!(run.accepts(&CycleEvent::VaultWalked { path: String::new(), files: 1 }));
    assert!(!run.accepts(&CycleEvent::VaultWalked { path: String::new(), files: 2 }));
    run.step(CycleEvent::VaultWalked { path: String::new(), files: 1 });
    run.step(CycleEvent::EmbedderProbed { error: None });
    run.imported = i64::MAX;
    assert!(!run.accepts(&CycleEvent::PageStored { changed: true, chunks: 1 }));
    assert!(run.accepts(&CycleEvent::PageStored { changed: false, chunks: 1 }));
}

#[test]
fn refused_report_messages() {
    assert_eq!(
        gate_failure_message(Some("\"import\"".into())),
        "cycle failed at gate Some(\"import\")"
    );
    assert_eq!(gate_failure_message(None), "cycle failed at gate None");
}

#[test]
fn upsert_plans() {
    assert_eq!(plan_upsert(None, "h"), UpsertPlan::Insert);
    assert_eq!(plan_upsert(Some((7, "h".into())), "h"), UpsertPlan::Unchanged(7));
    assert_eq!(plan_upsert(Some((7, "g".into())), "h"), UpsertPlan::Rewrite(7));
}

#[test]
fn same_text_is_unchanged_on_the_second_store() {
    let h = sha256("# Note\n\nbody");
    assert_eq!(plan_upsert(Some((3, h.clone())), &h), UpsertPlan::Unchanged(3));
    assert_eq!(plan_upsert(Some((3, h)), &sha256("# Note\n\nother")), UpsertPlan::Rewrite(3));
}

#[test]
fn page_keys_join_vault_and_path() {
    assert_eq!(page_key("fixture", "notes/a.md"), "fixture:notes/a.md");
    assert_eq!(page_key("", "a.md"), ":a.md");
}

#[test]
fn chunk_records_number_and_hash_the_chunks() {
    let recs = chunk_records(&vec!["abc".to_string(), "## B\ntext".to_string()]);
    assert_eq!(recs.len(), 2);
    assert_eq!((recs[0].ord, recs[0].content.as_str()), (0, "abc"));
    assert_eq!(
        recs[0].hash,
        "ba7816bf8f01cfea414140de5dae2223b00361a396177a9cb410ff61f20015ad"
    );
    assert_eq!((recs[1].ord, recs[1].content.as_str()), (1, "## B\ntext"));
    assert_eq!(recs[1].hash, sha256("## B\ntext"));
    assert!(chunk_records(&Vec::new()).is_empty());
}
