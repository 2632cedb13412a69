//! What the audit log records.
use crate::values::{Address, Symbol};
use vstd::prelude::*;

verus! {

/// What happened.
#[derive(Clone, Copy, PartialEq, Eq, PartialOrd, Ord, Structural, Debug)]
pub enum AuditEventType {
    Rebalance,
    Stake,
    Unstake,
    EmergencyUnstake,
    YieldAccrual,
    Deposit,
    Withdrawal,
    ScheduleChange,
    AdminAction,
    Custom,
}

/// A named number.
#[derive(Clone, Copy, PartialEq, Eq, Structural, Debug)]
pub struct StateField {
    pub key: Symbol,
    pub value: i128,
}

/// Named numbers that describe a state.
pub struct StateSnapshot {
    pub fields: Vec<StateField>,
}

/// An entry of the log.
pub struct AuditLog {
    pub seq: u64,
    pub timestamp: u64,
    pub event_type: AuditEventType,
    pub actor: Address,
    pub permissions: u32,
    pub portfolio: Symbol,
    pub outcome: Symbol,
    pub detail: String,
    pub state_before: StateSnapshot,
    pub state_after: StateSnapshot,
    pub hash: Vec<u8>,
}

} // verus!
