use vstd::prelude::*;

verus! {

/// Where a site deletion stands. The deletion runs inside one storage
/// transaction: first the site's logs are removed, then the site itself.
#[derive(Clone, Copy, Debug, PartialEq, Eq, Structural)]
pub enum DeletePhase {
    /// The logs' removal was requested.
    LogsPending,
    /// The site's removal was requested.
    SitePending,
    /// Both removals succeeded and the commit was requested.
    CommitPending,
    /// A step failed, or no site matched; the rollback was requested.
    RollbackPending { not_found: bool },
    /// The outcome was reported.
    Finished,
}

/// What storage answered to the last request.
#[derive(Clone, Copy, Debug, PartialEq, Eq, Structural)]
pub enum StepOutcome {
    /// The request succeeded and touched `rows` rows.
    Done { rows: u64 },
    /// The request failed.
    Failed,
}

/// What to do next.
#[derive(Clone, Copy, Debug, PartialEq, Eq, Structural)]
pub enum TxAction {
    DeleteLogs,
    DeleteSite,
    Commit,
    Rollback,
    ReportDeleted,
    ReportNotFound,
    ReportStorageError,
    /// The deletion is over; nothing is left to do.
    Nothing,
}

/// The phase and the action that follow `outcome` in `phase`.
pub open spec fn delete_transition(phase: DeletePhase, outcome: StepOutcome) -> (DeletePhase, TxAction) {
    match phase {
        DeletePhase::LogsPending => match outcome {
            StepOutcome::Done { .. } => (DeletePhase::SitePending, TxAction::DeleteSite),
            StepOutcome::Failed => (DeletePhase::RollbackPending { not_found: false }, TxAction::Rollback),
        },
        DeletePhase::SitePending => match outcome {
            StepOutcome::Done { rows } => if rows > 0 {
                (DeletePhase::CommitPending, TxAction::Commit)
            } else {
                (DeletePhase::RollbackPending { not_found: true }, TxAction::Rollback)
            },
            StepOutcome::Failed => (DeletePhase::RollbackPending { not_found: false }, TxAction::Rollback),
        },
        DeletePhase::CommitPending => match outcome {
            StepOutcome::Done { .. } => (DeletePhase::Finished, TxAction::ReportDeleted),
            StepOutcome::Failed => (DeletePhase::Finished, TxAction::ReportStorageError),
        },
        DeletePhase::RollbackPending { not_found } => match outcome {
            StepOutcome::Done { .. } => (DeletePhase::Finished, if not_found {
                TxAction::ReportNotFound
            } else {
                TxAction::ReportStorageError
            }),
            StepOutcome::Failed => (DeletePhase::Finished, TxAction::ReportStorageError),
        },
        DeletePhase::Finished => (DeletePhase::Finished, TxAction::Nothing),
    }
}

/// Opens a deletion: once the transaction is open, the site's logs go first.
pub fn begin_delete() -> (r: (DeletePhase, TxAction))
    ensures
        r == (DeletePhase::LogsPending, TxAction::DeleteLogs),
{
    (DeletePhase::LogsPending, TxAction::DeleteLogs)
}

/// Decides the next step of a deletion from storage's answer to the last one.
pub fn delete_step(phase: DeletePhase, outcome: StepOutcome) -> (r: (DeletePhase, TxAction))
    ensures
        r == delete_transition(phase, outcome),
{
    match phase {
        DeletePhase::LogsPending => match outcome {
            StepOutcome::Done { .. } => (DeletePhase::SitePending, TxAction::DeleteSite),
            StepOutcome::Failed => (DeletePhase::RollbackPending { not_found: false }, TxAction::Rollback),
        },
        DeletePhase::SitePending => match outcome {
            StepOutcome::Done { rows } => if rows > 0 {
                (DeletePhase::CommitPending, TxAction::Commit)
            } else {
                (DeletePhase::RollbackPending { not_found: true }, TxAction::Rollback)
            },
            StepOutcome::Failed => (DeletePhase::RollbackPending { not_found: false }, TxAction::Rollback),
        },
        DeletePhase::CommitPending => match outcome {
            StepOutcome::Done { .. } => (DeletePhase::Finished, TxAction::ReportDeleted),
            StepOutcome::Failed => (DeletePhase::Finished, TxAction::ReportStorageError),
        },
        DeletePhase::RollbackPending { not_found } => match outcome {
            StepOutcome::Done { .. } => (DeletePhase::Finished, if not_found {
                TxAction::ReportNotFound
            } else {
                TxAction::ReportStorageError
            }),
            StepOutcome::Failed => (DeletePhase::Finished, TxAction::ReportStorageError),
        },
        DeletePhase::Finished => (DeletePhase::Finished, TxAction::Nothing),
    }
}

/// Storage reports success with at least one row touched.
pub open spec fn removed_rows(o: StepOutcome) -> bool {
    match o {
        StepOutcome::Done { rows } => rows > 0,
        StepOutcome::Failed => false,
    }
}

/// The actions that a deletion issues when storage answers with `outcomes`
/// in turn, starting from `phase`.
pub open spec fn delete_actions(phase: DeletePhase, outcomes: Seq<StepOutcome>) -> Seq<TxAction>
    decreases outcomes.len(),
{
    if outcomes.len() == 0 {
        Seq::empty()
    } else {
        let (next, action) = delete_transition(phase, outcomes[0]);
        seq![action] + delete_actions(next, outcomes.drop_first())
    }
}

/// A deletion is all or nothing: the commit is requested only right after the
/// logs' removal and the site's removal both succeeded, and a failure of
/// either removal, or a missing site, is answered by a rollback.
pub proof fn lemma_delete_all_or_nothing(outcomes: Seq<StepOutcome>)
    ensures
        forall|k: int| 0 <= k < outcomes.len() && #[trigger] delete_actions(DeletePhase::LogsPending, outcomes)[k] == TxAction::Commit
            ==> k == 1 && outcomes[0] is Done && removed_rows(outcomes[1]),
        forall|k: int| 0 <= k < outcomes.len() && #[trigger] delete_actions(DeletePhase::LogsPending, outcomes)[k] == TxAction::ReportDeleted
            ==> k == 2 && outcomes[0] is Done && removed_rows(outcomes[1])
                && outcomes[2] is Done,
        outcomes.len() > 0 && outcomes[0] is Failed ==> delete_actions(DeletePhase::LogsPending, outcomes)[0] == TxAction::Rollback,
        outcomes.len() > 1 && outcomes[0] is Done && !(removed_rows(outcomes[1]))
            ==> delete_actions(DeletePhase::LogsPending, outcomes)[1] == TxAction::Rollback,
{
    lemma_finished_quiet(outcomes.drop_first());
    lemma_finished_quiet(outcomes.drop_first().drop_first());
    lemma_finished_quiet(outcomes.drop_first().drop_first().drop_first());
    let a = delete_actions(DeletePhase::LogsPending, outcomes);
    if outcomes.len() > 0 {
        let o1 = outcomes.drop_first();
        let (p1, _) = delete_transition(DeletePhase::LogsPending, outcomes[0]);
        assert(a == seq![a[0]] + delete_actions(p1, o1));
        if o1.len() > 0 {
            let o2 = o1.drop_first();
            let (p2, _) = delete_transition(p1, o1[0]);
            assert(delete_actions(p1, o1) == seq![a[1]] + delete_actions(p2, o2));
            if o2.len() > 0 {
                let o3 = o2.drop_first();
                let (p3, _) = delete_transition(p2, o2[0]);
                assert(delete_actions(p2, o2) == seq![a[2]] + delete_actions(p3, o3));
                lemma_finished_quiet(o3);
                assert forall|k: int| 3 <= k < outcomes.len() implies a[k] == TxAction::Nothing
                    || a[k] == TxAction::ReportNotFound || a[k] == TxAction::ReportStorageError by {
                    assert(a[k] == delete_actions(p3, o3)[k - 3]);
                    if p3 != DeletePhase::Finished {
                        let (p4, _) = delete_transition(p3, o3[0]);
                        assert(delete_actions(p3, o3) == seq![delete_actions(p3, o3)[0]] + delete_actions(p4, o3.drop_first()));
                        lemma_finished_quiet(o3.drop_first());
                        if k > 3 {
                            assert(delete_actions(p3, o3)[k - 3] == delete_actions(p4, o3.drop_first())[k - 4]);
                        }
                    } else {
                        assert(delete_actions(p3, o3)[k - 3] == TxAction::Nothing);
                    }
                }
            }
        }
    }
}

/// A finished deletion issues nothing more.
proof fn lemma_finished_quiet(outcomes: Seq<StepOutcome>)
    ensures
        forall|k: int| 0 <= k < outcomes.len() ==> #[trigger] delete_actions(DeletePhase::Finished, outcomes)[k] == TxAction::Nothing,
        delete_actions(DeletePhase::Finished, outcomes).len() == outcomes.len(),
    decreases outcomes.len(),
{
    if outcomes.len() > 0 {
        lemma_finished_quiet(outcomes.drop_first());
        let rest = delete_actions(DeletePhase::Finished, outcomes.drop_first());
        assert(delete_actions(DeletePhase::Finished, outcomes) == seq![TxAction::Nothing] + rest);
    }
}

} // verus!
