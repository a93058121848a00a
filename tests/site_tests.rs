use uptime_monitor::delete::{begin_delete, delete_step, DeletePhase, StepOutcome, TxAction};
use uptime_monitor::error::ApiError;
use uptime_monitor::prober::{ProbeAction, ProbeEvent, ProbePhase, Prober};
use uptime_monitor::website::{get_monthly_stats, validate_website, Website};

fn site(url: &str, alias: &str) -> Website {
    Website::new(url.to_string(), alias.to_string())
}

#[test]
fn valid_urls_are_accepted() {
    assert_eq!(validate_website(&site("https://example.com", "ex")), Ok(()));
    assert_eq!(validate_website(&site("http://localhost:80", "local")), Ok(()));
    assert_eq!(validate_website(&site("ftp://localhost:80", "")), Ok(()));
}

#[test]
fn malformed_urls_are_rejected() {
    assert_eq!(validate_website(&site("http", "ex")), Err(ApiError::Validation));
    assert_eq!(validate_website(&site("", "ex")), Err(ApiError::Validation));
    assert_eq!(validate_website(&site("example.com", "ex")), Err(ApiError::Validation));
}

#[test]
fn monthly_stats_are_not_supported() {
    assert_eq!(get_monthly_stats("ex"), Err(ApiError::NotSupported));
}

#[test]
fn one_probing_round_stores_one_result() {
    let mut p = Prober::new();
    assert_eq!(p.phase(), ProbePhase::Idle);
    let a = p.step(ProbeEvent::Tick(vec![site("https://example.com", "ex")]));
    assert_eq!(a, ProbeAction::Get("https://example.com".to_string()));
    let a = p.step(ProbeEvent::Response(200));
    assert_eq!(a, ProbeAction::InsertLog { alias: "ex".to_string(), status: 200 });
    let a = p.step(ProbeEvent::Stored);
    assert_eq!(a, ProbeAction::WaitForTick);
    assert_eq!(p.phase(), ProbePhase::Idle);
}

#[test]
fn every_site_is_probed_in_turn() {
    let mut p = Prober::new();
    let a = p.step(ProbeEvent::Tick(vec![site("http://a.test", "a"), site("http://b.test", "b")]));
    assert_eq!(a, ProbeAction::Get("http://a.test".to_string()));
    assert_eq!(p.step(ProbeEvent::Response(503)), ProbeAction::InsertLog { alias: "a".to_string(), status: 503 });
    assert_eq!(p.step(ProbeEvent::Stored), ProbeAction::Get("http://b.test".to_string()));
    assert_eq!(p.step(ProbeEvent::Response(200)), ProbeAction::InsertLog { alias: "b".to_string(), status: 200 });
    assert_eq!(p.step(ProbeEvent::Stored), ProbeAction::WaitForTick);
}

#[test]
fn empty_registry_waits_for_the_next_tick() {
    let mut p = Prober::new();
    assert_eq!(p.step(ProbeEvent::Tick(vec![])), ProbeAction::WaitForTick);
    assert_eq!(p.phase(), ProbePhase::Idle);
}

#[test]
fn failed_probe_halts_everything() {
    let mut p = Prober::new();
    p.step(ProbeEvent::Tick(vec![site("http://a.test", "a"), site("http://b.test", "b")]));
    let a = p.step(ProbeEvent::ProbeFailed("connection refused".to_string()));
    assert_eq!(a, ProbeAction::Halt(ApiError::Probe("connection refused".to_string())));
    assert_eq!(p.phase(), ProbePhase::Halted);
    assert_eq!(p.step(ProbeEvent::Tick(vec![site("http://b.test", "b")])), ProbeAction::Ignore);
}

#[test]
fn failed_store_halts_everything() {
    let mut p = Prober::new();
    p.step(ProbeEvent::Tick(vec![site("http://a.test", "a")]));
    p.step(ProbeEvent::Response(200));
    let a = p.step(ProbeEvent::StoreFailed("site is gone".to_string()));
    assert_eq!(a, ProbeAction::Halt(ApiError::Storage("site is gone".to_string())));
    assert_eq!(p.phase(), ProbePhase::Halted);
}

#[test]
fn unexpected_events_are_ignored() {
    let mut p = Prober::new();
    assert_eq!(p.step(ProbeEvent::Stored), ProbeAction::Ignore);
    p.step(ProbeEvent::Tick(vec![site("http://a.test", "a")]));
    assert_eq!(p.step(ProbeEvent::Stored), ProbeAction::Ignore);
    assert_eq!(p.phase(), ProbePhase::AwaitingResponse);
}

#[test]
fn successful_delete_commits() {
    let (phase, action) = begin_delete();
    assert_eq!(action, TxAction::DeleteLogs);
    let (phase, action) = delete_step(phase, StepOutcome::Done { rows: 3 });
    assert_eq!(action, TxAction::DeleteSite);
    let (phase, action) = delete_step(phase, StepOutcome::Done { rows: 1 });
    assert_eq!(action, TxAction::Commit);
    let (phase, action) = delete_step(phase, StepOutcome::Done { rows: 0 });
    assert_eq!(action, TxAction::ReportDeleted);
    assert_eq!(phase, DeletePhase::Finished);
    assert_eq!(delete_step(phase, StepOutcome::Failed), (DeletePhase::Finished, TxAction::Nothing));
}

#[test]
fn failed_log_removal_rolls_back() {
    let (phase, _) = begin_delete();
    let (phase, action) = delete_step(phase, StepOutcome::Failed);
    assert_eq!(action, TxAction::Rollback);
    let (_, action) = delete_step(phase, StepOutcome::Done { rows: 0 });
    assert_eq!(action, TxAction::ReportStorageError);
}

#[test]
fn failed_site_removal_rolls_back() {
    let (phase, _) = begin_delete();
    let (phase, _) = delete_step(phase, StepOutcome::Done { rows: 2 });
    let (phase, action) = delete_step(phase, StepOutcome::Failed);
    assert_eq!(action, TxAction::Rollback);
    assert_eq!(delete_step(phase, StepOutcome::Done { rows: 0 }).1, TxAction::ReportStorageError);
}

#[test]
fn unknown_alias_rolls_back_as_not_found() {
    let (phase, _) = begin_delete();
    let (phase, _) = delete_step(phase, StepOutcome::Done { rows: 0 });
    let (phase, action) = delete_step(phase, StepOutcome::Done { rows: 0 });
    assert_eq!(action, TxAction::Rollback);
    assert_eq!(delete_step(phase, StepOutcome::Done { rows: 0 }).1, TxAction::ReportNotFound);
}

#[test]
fn failed_commit_is_a_storage_error() {
    let (phase, _) = begin_delete();
    let (phase, _) = delete_step(phase, StepOutcome::Done { rows: 0 });
    let (phase, _) = delete_step(phase, StepOutcome::Done { rows: 1 });
    assert_eq!(delete_step(phase, StepOutcome::Failed), (DeletePhase::Finished, TxAction::ReportStorageError));
}
