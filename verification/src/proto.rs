//! The messages of the lock service, and the numbers of its enumerations on the
//! wire.

use vstd::prelude::*;

verus! {

/// The two kinds of lock.
#[derive(Debug, Clone, Copy, PartialEq, Eq, Structural)]
pub enum Mode {
    Read,
    Write,
}

/// Whether a request is for a lock that its owner holds already.
#[derive(Debug, Clone, Copy, PartialEq, Eq, Structural)]
pub enum LockState {
    Held,
    New,
}

/// What happened to an owner's locks.
#[derive(Debug, Clone, Copy, PartialEq, Eq, Structural)]
pub enum EventType {
    Released,
    Killed,
    Revoke,
}

/// What became of an acquire.
#[derive(Debug, Clone, Copy, PartialEq, Eq, Structural)]
pub enum AcquireStatus {
    Granted,
    Conflict,
    Lost,
}

/// What became of a renewal.
#[derive(Debug, Clone, Copy, PartialEq, Eq, Structural)]
pub enum RenewStatus {
    Renewed,
    Lost,
}

/// Whether fenced ownership holds.
#[derive(Debug, Clone, Copy, PartialEq, Eq, Structural)]
pub enum AssertStatus {
    Held,
    Fail,
}

/// What a walk along wait-for edges found.
#[derive(Debug, Clone, Copy, PartialEq, Eq, Structural)]
pub enum CycleKind {
    Clear,
    Found,
    Truncated,
}

/// Numbers on the wire: the position of a variant in its enumeration.
pub open spec fn mode_number(m: Mode) -> i32 {
    match m {
        Mode::Read => 0,
        Mode::Write => 1,
    }
}

pub open spec fn state_number(s: LockState) -> i32 {
    match s {
        LockState::Held => 0,
        LockState::New => 1,
    }
}

pub open spec fn event_number(e: EventType) -> i32 {
    match e {
        EventType::Released => 0,
        EventType::Killed => 1,
        EventType::Revoke => 2,
    }
}

pub open spec fn acquire_number(s: AcquireStatus) -> i32 {
    match s {
        AcquireStatus::Granted => 0,
        AcquireStatus::Conflict => 1,
        AcquireStatus::Lost => 2,
    }
}

pub open spec fn renew_number(s: RenewStatus) -> i32 {
    match s {
        RenewStatus::Renewed => 0,
        RenewStatus::Lost => 1,
    }
}

pub open spec fn assert_number(s: AssertStatus) -> i32 {
    match s {
        AssertStatus::Held => 0,
        AssertStatus::Fail => 1,
    }
}

pub open spec fn cycle_number(k: CycleKind) -> i32 {
    match k {
        CycleKind::Clear => 0,
        CycleKind::Found => 1,
        CycleKind::Truncated => 2,
    }
}

impl Mode {
    /// The mode with a number on the wire.
    pub fn from_number(i: i32) -> (r: Option<Mode>)
        ensures
            r matches Some(m) ==> mode_number(m) == i,
            r is None ==> forall|m: Mode| #[trigger] mode_number(m) != i,
    {
        if i == 0 {
            Some(Mode::Read)
        } else if i == 1 {
            Some(Mode::Write)
        } else {
            None
        }
    }

    /// The number on the wire.
    pub fn number(self) -> (r: i32)
        ensures
            r == mode_number(self),
    {
        match self {
            Mode::Read => 0,
            Mode::Write => 1,
        }
    }
}

impl LockState {
    /// The state with a number on the wire.
    pub fn from_number(i: i32) -> (r: Option<LockState>)
        ensures
            r matches Some(s) ==> state_number(s) == i,
            r is None ==> forall|s: LockState| #[trigger] state_number(s) != i,
    {
        if i == 0 {
            Some(LockState::Held)
        } else if i == 1 {
            Some(LockState::New)
        } else {
            None
        }
    }

    /// The number on the wire.
    pub fn number(self) -> (r: i32)
        ensures
            r == state_number(self),
    {
        match self {
            LockState::Held => 0,
            LockState::New => 1,
        }
    }
}

impl EventType {
    /// The type of event with a number on the wire.
    pub fn from_number(i: i32) -> (r: Option<EventType>)
        ensures
            r matches Some(e) ==> event_number(e) == i,
            r is None ==> forall|e: EventType| #[trigger] event_number(e) != i,
    {
        if i == 0 {
            Some(EventType::Released)
        } else if i == 1 {
            Some(EventType::Killed)
        } else if i == 2 {
            Some(EventType::Revoke)
        } else {
            None
        }
    }

    /// The number on the wire.
    pub fn number(self) -> (r: i32)
        ensures
            r == event_number(self),
    {
        match self {
            EventType::Released => 0,
            EventType::Killed => 1,
            EventType::Revoke => 2,
        }
    }
}

/// An event in the life of an owner. `kind` is the number of an `EventType`.
#[derive(Debug, Clone, PartialEq, Eq)]
pub struct Event {
    pub kind: i32,
    pub owner_id: String,
}

/// An event in the life of an owner.
pub struct EventView {
    pub kind: i32,
    pub owner: Seq<char>,
}

impl Event {
    pub open spec fn view(&self) -> EventView {
        EventView { kind: self.kind, owner: self.owner_id@ }
    }
}

/// A requested lock. `mode` and `state` are numbers of a `Mode` and a `LockState`.
#[derive(Debug, Clone, PartialEq, Eq)]
pub struct LockRequest {
    pub path: String,
    pub mode: i32,
    pub state: i32,
}

/// A lock to give up. `mode` is the number of a `Mode`.
#[derive(Debug, Clone, PartialEq, Eq)]
pub struct ReleaseRequest {
    pub path: String,
    pub mode: i32,
}

#[derive(Debug, Clone, PartialEq, Eq)]
pub struct AcquireRequest {
    pub owner_id: String,
    pub ttl_ms: u64,
    pub requests: Vec<LockRequest>,
    pub fencing_token: i64,
    pub release_requests: Vec<ReleaseRequest>,
    pub emit_release: bool,
}

/// `status` is the number of an `AcquireStatus`.
#[derive(Debug, Clone, PartialEq, Eq)]
pub struct AcquireResponse {
    pub status: i32,
    pub path: String,
    pub owner: String,
    pub reason: String,
}

#[derive(Debug, Clone, PartialEq, Eq)]
pub struct ReleaseLocksRequest {
    pub owner_id: String,
    pub requests: Vec<ReleaseRequest>,
    pub del_wait_key: bool,
}

/// `status` is the number of a `RenewStatus`.
#[derive(Debug, Clone, PartialEq, Eq)]
pub struct RenewResponse {
    pub status: i32,
    pub path: String,
    pub reason: String,
}

#[derive(Debug, Clone, PartialEq, Eq)]
pub struct AssertFencingRequest {
    pub owner_id: String,
    pub fencing_token: i64,
    pub paths: Vec<String>,
}

/// `status` is the number of an `AssertStatus`.
#[derive(Debug, Clone, PartialEq, Eq)]
pub struct AssertFencingResponse {
    pub status: i32,
    pub path: String,
    pub reason: String,
}

/// `kind` is the number of a `CycleKind`.
#[derive(Debug, Clone, PartialEq, Eq)]
pub struct DetectCycleResponse {
    pub kind: i32,
    pub chain: Vec<String>,
}

#[derive(Debug, Clone, PartialEq, Eq)]
pub struct IsBlockingRequest {
    pub conflict_path: String,
    pub conflict_owner: String,
    pub reason: String,
}

#[derive(Debug, Clone, PartialEq, Eq)]
pub struct SetWaitEdgeRequest {
    pub owner_id: String,
    pub conflict_owner: String,
    pub ttl_ms: u64,
    pub conflict_path: String,
    pub reason: String,
}

#[derive(Debug, Clone, PartialEq, Eq)]
pub struct RequestRevokeRequest {
    pub owner_id: String,
    pub claim_path: String,
    pub claimant_owner_id: String,
    pub claim_ttl_ms: u64,
}

#[derive(Debug, Clone, PartialEq, Eq)]
pub struct HealthResponse {
    pub ok: bool,
    pub detail: String,
}

#[derive(Debug, Clone, PartialEq, Eq)]
pub struct GetWriteOwnerResponse {
    pub exists: bool,
    pub owner_id: String,
}

#[derive(Debug, Clone, PartialEq, Eq)]
pub struct GetFenceResponse {
    pub exists: bool,
    pub value: i64,
}

} // verus!
