//! The expiry scheduler's decision logic: which token to refresh next,
//! how long to sleep when nothing is due, and how a refresh outcome is
//! applied back to the store. The surrounding loop — sleeping, racing the
//! store's change notifications, calling the remote service — performs
//! these decisions.

use vstd::prelude::*;

use crate::db::{extend_token_model, remove_token_model, Database, StoreError};
use crate::model::{Token, TokenId};
use crate::session::SessionUpdateResult;

verus! {

/// Scheduler configuration: the lead time (milliseconds) by which a token
/// is refreshed before its deadline passes.
pub struct Updater {
    pub gap: u64,
}

/// How far ahead (milliseconds) the scheduler pretends the next deadline
/// lies when the store is empty, so it re-checks periodically instead of
/// sleeping forever: one million seconds.
pub const FAR_FUTURE_MILLIS: u64 = 1000000 * 1000;

/// One scheduling decision: refresh the most urgent token right away, or
/// sleep this long (milliseconds) and look again.
pub enum SchedulerAction {
    Refresh { token_id: TokenId, token: Token },
    Sleep { millis: u64 },
}

/// The deadline the scheduler acts on: the soonest index entry's, or the
/// far-future sentinel when the store is empty.
pub open spec fn effective_deadline(db: crate::db::StoreModel, now: u64) -> int {
    if db.queue.len() == 0 {
        now + FAR_FUTURE_MILLIS
    } else {
        db.queue[0].0.0 as int
    }
}

/// Decide one scheduler iteration: if the soonest deadline falls within
/// the configured lead time, the most urgent token is due and is
/// refreshed now; otherwise sleep until exactly lead-time before that
/// deadline.
pub fn next_action(db: &Database, now: u64, config: &Updater) -> (a: SchedulerAction)
    requires
        db@.wf(),
        config.gap <= FAR_FUTURE_MILLIS,
    ensures
        ({
            let gap = config.gap;
            let dl = effective_deadline(db@, now);
            match a {
                SchedulerAction::Refresh { token_id, token } => {
                    &&& dl < now + gap
                    &&& db@.queue.len() > 0
                    &&& db@.queue[0].0 == (token@.deadline, token_id@)
                    &&& db@.has_token(token_id@)
                    &&& db@.token_at(token_id@) == token@
                },
                SchedulerAction::Sleep { millis } => {
                    &&& !(dl < now + gap)
                    &&& millis == dl - (now + gap)
                },
            }
        }),
{
    let gap = config.gap;
    match db.get_most_urgent_token() {
        Some(p) => {
            let (id, tok) = p;
            let deadline = tok.deadline;
            let due = match now.checked_add(gap) {
                Some(t) => deadline < t,
                None => true,
            };
            if due {
                SchedulerAction::Refresh { token_id: id, token: tok }
            } else {
                SchedulerAction::Sleep { millis: deadline - (now + gap) }
            }
        },
        None => SchedulerAction::Sleep { millis: FAR_FUTURE_MILLIS - gap },
    }
}

/// Apply a refresh outcome to the store: a live session's token moves to
/// `now + time_left`, a dead session's token is removed; a token that a
/// concurrent writer already removed is left alone.
pub fn update_one(
    db: &mut Database,
    token_id: TokenId,
    outcome: &SessionUpdateResult,
    now: u64,
) -> (r: Result<(), StoreError>)
    requires
        old(db)@.wf(),
        (*outcome matches SessionUpdateResult::Alive { time_left } ==> now + time_left
            <= u64::MAX),
    ensures
        r is Ok,
        final(db)@.wf(),
        match *outcome {
            SessionUpdateResult::Alive { time_left } => {
                if old(db)@.has_token(token_id@) {
                    final(db)@ =~= extend_token_model(
                        old(db)@,
                        token_id@,
                        (now + time_left) as u64,
                    )
                } else {
                    final(db)@ =~= old(db)@
                }
            },
            SessionUpdateResult::SessionDead => {
                if old(db)@.has_token(token_id@) {
                    final(db)@ =~= remove_token_model(old(db)@, token_id@)
                } else {
                    final(db)@ =~= old(db)@
                }
            },
        },
{
    match outcome {
        SessionUpdateResult::Alive { time_left } => db.update_token(token_id, *time_left, now),
        SessionUpdateResult::SessionDead => db.remove_token(token_id),
    }
}

} // verus!
