//! Asking one node to register its memory, until it has done so for its current generation.
use vstd::prelude::*;

use crate::cluster::{member_ready_for_segment_registration, ClusterMember, NodeRole};

verus! {

/// Seconds until the first repetition of a failed request.
pub const INITIAL_BACKOFF_SECS: u64 = 3;

/// The most seconds between two requests.
pub const MAX_BACKOFF_SECS: u64 = 60;

/// Seconds that an idle actor waits for an event before it ends.
pub const KEEP_ALIVE_SECS: u64 = 30;

/// What an actor waits for, besides events and the end of the process.
#[derive(Clone, Copy, Debug, PartialEq, Eq, Structural)]
pub enum ActorWait {
    /// Nothing is to be done; the actor ends after this many seconds.
    Idle { secs: u64 },
    /// The next request is due after this many seconds.
    Retry { secs: u64 },
    /// A request for this generation is under way.
    Reply { epoch: i64 },
}

/// What is to be done at once.
#[derive(Clone, Copy, Debug, PartialEq, Eq, Structural)]
pub enum ActorAction {
    Nothing,
    /// Mark what the node had as gone.
    MarkTomb,
    /// Ask the node to register its memory.
    RequestRegistration { epoch: i64 },
}

/// How a request ended.
#[derive(Clone, Copy, Debug, PartialEq, Eq, Structural)]
pub enum RegistrationReply {
    Registered,
    /// The node has been restarted meanwhile.
    StartTimeMismatch,
    Failed,
}

/// The state of the actor for one node.
#[derive(Clone, Copy, Debug, PartialEq, Eq, Structural)]
pub struct RegistrationActor {
    /// The generation to be registered.
    pub desired_epoch: Option<i64>,
    /// The generation that is registered.
    pub registered_epoch: Option<i64>,
    /// The generation that was seen last.
    pub last_seen_epoch: Option<i64>,
    /// Seconds until the next repetition, should the request fail.
    pub backoff_secs: u64,
    /// Seconds until the next request.
    pub retry_secs: Option<u64>,
    /// The generation that a request is under way for.
    pub inflight_epoch: Option<i64>,
}

/// The next backoff: twice as long, up to the limit.
pub open spec fn bumped(secs: u64) -> u64 {
    if 2 * secs > MAX_BACKOFF_SECS {
        MAX_BACKOFF_SECS
    } else {
        (2 * secs) as u64
    }
}

/// What an actor waits for.
pub open spec fn waits_for(a: RegistrationActor, r: ActorWait, b: RegistrationActor) -> bool {
    let due = if a.desired_epoch is Some && a.inflight_epoch is None
        && a.retry_secs is None {
        Some(0u64)
    } else {
        a.retry_secs
    };
    &&& b == (RegistrationActor { retry_secs: due, ..a })
    &&& r == match due {
        Some(secs) => ActorWait::Retry { secs },
        None => match a.inflight_epoch {
            Some(epoch) => ActorWait::Reply { epoch },
            None => ActorWait::Idle { secs: KEEP_ALIVE_SECS },
        },
    }
}

/// A node was seen.
pub open spec fn seen_taken(
    a: RegistrationActor,
    member: ClusterMember,
    r: ActorAction,
    b: RegistrationActor,
) -> bool {
    let epoch = member.node_start_time;
    let wanted = a.registered_epoch != Some(epoch) && member.owns_segments();
    if member.role != NodeRole::Client {
        r == ActorAction::Nothing && b == a
    } else {
        &&& r == if a.last_seen_epoch is Some && a.last_seen_epoch
            != Some(epoch) {
            ActorAction::MarkTomb
        } else {
            ActorAction::Nothing
        }
        &&& b == if wanted {
            RegistrationActor {
                last_seen_epoch: Some(epoch),
                desired_epoch: Some(epoch),
                backoff_secs: INITIAL_BACKOFF_SECS,
                retry_secs: Some(0),
                ..a
            }
        } else {
            RegistrationActor { last_seen_epoch: Some(epoch), ..a }
        }
    }
}

/// A request was due.
pub open spec fn retry_taken(
    a: RegistrationActor,
    member: Option<&ClusterMember>,
    r: ActorAction,
    b: RegistrationActor,
) -> bool {
    match a.desired_epoch {
        None => r == ActorAction::Nothing && b == (RegistrationActor {
            retry_secs: None,
            ..a
        }),
        Some(epoch) => {
            let ready = member matches Some(m) && m.role == NodeRole::Client
                && m.node_start_time == epoch && m.owns_segments();
            if ready {
                r == (ActorAction::RequestRegistration { epoch }) && b == (
                RegistrationActor {
                    retry_secs: None,
                    inflight_epoch: Some(epoch),
                    ..a
                })
            } else {
                r == ActorAction::Nothing && b == (RegistrationActor {
                    retry_secs: None,
                    desired_epoch: None,
                    ..a
                })
            }
        },
    }
}

/// A node answered a request.
pub open spec fn reply_taken(
    a: RegistrationActor,
    reply: RegistrationReply,
    b: RegistrationActor,
) -> bool {
    let done = RegistrationActor { inflight_epoch: None, ..a };
    b == if a.desired_epoch != a.inflight_epoch {
        done
    } else {
        match reply {
            RegistrationReply::Registered => RegistrationActor {
                registered_epoch: a.inflight_epoch,
                desired_epoch: None,
                backoff_secs: INITIAL_BACKOFF_SECS,
                ..done
            },
            RegistrationReply::StartTimeMismatch => RegistrationActor {
                desired_epoch: None,
                ..done
            },
            RegistrationReply::Failed => RegistrationActor {
                retry_secs: Some(a.backoff_secs),
                backoff_secs: bumped(a.backoff_secs),
                ..done
            },
        }
    }
}

/// The node has left; this is taken note of.
pub open spec fn left_taken(a: RegistrationActor, r: ActorAction, b: RegistrationActor) -> bool {
    &&& r == ActorAction::MarkTomb
    &&& b == (RegistrationActor {
        desired_epoch: None,
        registered_epoch: None,
        last_seen_epoch: None,
        retry_secs: None,
        inflight_epoch: None,
        ..a
    })
}

/// When a node leaves, what it had is marked as gone and all that was known of its generations is forgotten, so
/// that nothing is asked of it and no late reply counts.
pub proof fn a_node_that_left_is_forgotten(a: RegistrationActor, r: ActorAction, b: RegistrationActor)
    requires
        left_taken(a, r, b),
    ensures
        r == ActorAction::MarkTomb,
        b.desired_epoch is None && b.registered_epoch is None && b.last_seen_epoch is None,
        b.retry_secs is None && b.inflight_epoch is None,
        forall|w: ActorWait, c: RegistrationActor| #[trigger] waits_for(b, w, c) ==> w is Idle,
{
}

impl RegistrationActor {
    /// A request is due only for a generation that is to be registered.
    pub open spec fn wf(&self) -> bool {
        &&& INITIAL_BACKOFF_SECS <= self.backoff_secs <= MAX_BACKOFF_SECS
        &&& self.retry_secs is Some ==> self.desired_epoch is Some
        &&& self.desired_epoch is Some ==> self.desired_epoch != self.registered_epoch
    }

    pub fn new() -> (r: Self)
        ensures
            r.wf(),
            r == (RegistrationActor {
                desired_epoch: None,
                registered_epoch: None,
                last_seen_epoch: None,
                backoff_secs: INITIAL_BACKOFF_SECS,
                retry_secs: None,
                inflight_epoch: None,
            }),
    {
        RegistrationActor {
            desired_epoch: None,
            registered_epoch: None,
            last_seen_epoch: None,
            backoff_secs: INITIAL_BACKOFF_SECS,
            retry_secs: None,
            inflight_epoch: None,
        }
    }

    /// What the actor waits for. A generation to be registered without a request due or under way
    /// makes a request due at once.
    pub fn next_wait(&mut self) -> (r: ActorWait)
        requires
            old(self).wf(),
        ensures
            final(self).wf(),
            waits_for(*old(self), r, *final(self)),
    {
        if self.desired_epoch.is_some() && self.inflight_epoch.is_none()
            && self.retry_secs.is_none() {
            self.retry_secs = Some(0);
        }
        match self.retry_secs {
            Some(secs) => ActorWait::Retry { secs },
            None => match self.inflight_epoch {
                Some(epoch) => ActorWait::Reply { epoch },
                None => ActorWait::Idle { secs: KEEP_ALIVE_SECS },
            },
        }
    }

    /// The node has joined or changed. A new generation puts an end to the one before, and is to be
    /// registered when the node is ready for that.
    pub fn member_seen(&mut self, member: &ClusterMember) -> (r: ActorAction)
        requires
            old(self).wf(),
            member.wf(),
        ensures
            final(self).wf(),
            seen_taken(*old(self), *member, r, *final(self)),
    {
        if !matches!(member.role, NodeRole::Client) {
            return ActorAction::Nothing;
        }
        let epoch: i64 = member.node_start_time;
        let action = match self.last_seen_epoch {
            Some(prev) => if prev != epoch {
                ActorAction::MarkTomb
            } else {
                ActorAction::Nothing
            },
            None => ActorAction::Nothing,
        };
        self.last_seen_epoch = Some(epoch);
        let registered = match self.registered_epoch {
            Some(done) => done == epoch,
            None => false,
        };
        if !registered && member_ready_for_segment_registration(member) {
            self.desired_epoch = Some(epoch);
            self.backoff_secs = INITIAL_BACKOFF_SECS;
            self.retry_secs = Some(0);
        }
        action
    }

    /// The node has left: everything is forgotten.
    pub fn member_left(&mut self) -> (r: ActorAction)
        requires
            old(self).wf(),
        ensures
            final(self).wf(),
            left_taken(*old(self), r, *final(self)),
    {
        self.desired_epoch = None;
        self.registered_epoch = None;
        self.last_seen_epoch = None;
        self.retry_secs = None;
        self.inflight_epoch = None;
        ActorAction::MarkTomb
    }

    /// A request is due. It is made if the node is still there, in the generation that is to be
    /// registered, and ready; otherwise there is nothing to register any more.
    pub fn retry_due(&mut self, member: Option<&ClusterMember>) -> (r: ActorAction)
        requires
            old(self).wf(),
            member matches Some(m) ==> m.wf(),
        ensures
            final(self).wf(),
            retry_taken(*old(self), member, r, *final(self)),
    {
        self.retry_secs = None;
        let epoch: i64 = match self.desired_epoch {
            Some(epoch) => epoch,
            None => {
                return ActorAction::Nothing;
            },
        };
        let ready = match member {
            Some(m) => matches!(m.role, NodeRole::Client) && m.node_start_time == epoch
                && member_ready_for_segment_registration(m),
            None => false,
        };
        if !ready {
            self.desired_epoch = None;
            return ActorAction::Nothing;
        }
        self.inflight_epoch = Some(epoch);
        ActorAction::RequestRegistration { epoch }
    }

    /// A request has ended. The reply counts only if the generation it was made for is still the one
    /// to be registered.
    pub fn replied(&mut self, reply: RegistrationReply)
        requires
            old(self).wf(),
            old(self).inflight_epoch is Some,
            old(self).retry_secs is None,
        ensures
            final(self).wf(),
            reply_taken(*old(self), reply, *final(self)),
    {
        let inflight = self.inflight_epoch;
        self.inflight_epoch = None;
        let current = match (inflight, self.desired_epoch) {
            (Some(a), Some(b)) => a == b,
            _ => false,
        };
        if !current {
            return ;
        }
        match reply {
            RegistrationReply::Registered => {
                self.registered_epoch = inflight;
                self.desired_epoch = None;
                self.backoff_secs = INITIAL_BACKOFF_SECS;
            },
            RegistrationReply::StartTimeMismatch => {
                self.desired_epoch = None;
            },
            RegistrationReply::Failed => {
                self.retry_secs = Some(self.backoff_secs);
                self.backoff_secs = if 2 * self.backoff_secs > MAX_BACKOFF_SECS {
                    MAX_BACKOFF_SECS
                } else {
                    2 * self.backoff_secs
                };
            },
        }
    }
}

/// The backoff doubles up to its limit and stays there.
pub proof fn backoff_is_bounded(secs: u64)
    requires
        INITIAL_BACKOFF_SECS <= secs <= MAX_BACKOFF_SECS,
    ensures
        secs <= bumped(secs) <= MAX_BACKOFF_SECS,
        secs < MAX_BACKOFF_SECS ==> secs < bumped(secs),
{
}

} // verus!
