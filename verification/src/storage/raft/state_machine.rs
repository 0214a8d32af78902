//! Applying committed entries of the replicated log.
use vstd::prelude::*;
use crate::storage::recovermanager::log_store::{CommandView, LogCommand};
use crate::storage::writemanager::write::{WriteComponent, WriteView};

verus! {

/// What an entry of the log carries, besides its place.
pub enum EntryPayload<M> {
    /// A command, as bytes.
    Normal(Vec<u8>),
    /// A new membership of the cluster.
    Membership(M),
    /// Nothing.
    Blank,
}

/// The command in the bytes, if they are one.
pub open spec fn command_in(data: Seq<u8>) -> Option<CommandView> {
    if CommandView::complete(data) {
        match CommandView::parse(data) {
            Ok(c) => Some(c),
            Err(_) => None,
        }
    } else {
        None
    }
}

/// The write path once the bytes of a committed command have been applied; bytes that
/// are no command change nothing.
pub open spec fn committed(w: WriteView, data: Seq<u8>) -> WriteView {
    match command_in(data) {
        Some(c) => w.replicated(c),
        None => w,
    }
}

/// How far the committed entries have been applied.
pub struct KVStateMachine<I, M> {
    /// The place of the last entry that was applied.
    pub last_applied: Option<I>,
    /// The membership of the cluster, with the place where it was set.
    pub membership: Option<(I, M)>,
}

impl<I: Copy, M> KVStateMachine<I, M> {
    /// Nothing applied yet.
    pub fn new() -> (s: KVStateMachine<I, M>)
        ensures
            s.last_applied is None,
            s.membership is None,
    {
        KVStateMachine { last_applied: None, membership: None }
    }

    /// The state that recovery found.
    pub fn with_last_applied(last_applied: Option<I>, membership: Option<(I, M)>) -> (s:
        KVStateMachine<I, M>)
        ensures
            s.last_applied == last_applied,
            s.membership == membership,
    {
        KVStateMachine { last_applied, membership }
    }

    /// Applies the entry at the place `log_id`: a command goes into the memtable, a
    /// membership is kept. The answer is empty.
    pub fn apply(&mut self, log_id: I, payload: EntryPayload<M>, writes: &mut WriteComponent) -> (r:
        Vec<u8>)
        ensures
            r@ == Seq::<u8>::empty(),
            final(self).last_applied == Some(log_id),
            match payload {
                EntryPayload::Normal(data) => {
                    &&& final(self).membership == old(self).membership
                    &&& final(writes)@ == committed(old(writes)@, data@)
                },
                EntryPayload::Membership(m) => {
                    &&& final(self).membership == Some((log_id, m))
                    &&& final(writes)@ == old(writes)@
                },
                EntryPayload::Blank => {
                    &&& final(self).membership == old(self).membership
                    &&& final(writes)@ == old(writes)@
                },
            },
    {
        self.last_applied = Some(log_id);
        match payload {
            EntryPayload::Normal(data) => {
                if LogCommand::is_complete(data.as_slice()) {
                    match LogCommand::deserialize(data.as_slice()) {
                        Ok(c) => {
                            writes.apply_replicated_command(c);
                        },
                        Err(_) => {},
                    }
                }
            },
            EntryPayload::Membership(m) => {
                self.membership = Some((log_id, m));
            },
            EntryPayload::Blank => {},
        }
        let r: Vec<u8> = Vec::new();
        assert(r@ =~= Seq::<u8>::empty());
        r
    }
}

/// A command that was proposed as bytes is applied as it was on every node that applies
/// the entry.
pub proof fn law_proposed_is_applied(w: WriteView, c: CommandView)
    requires
        c.key.len() <= u64::MAX,
        c.value.len() <= u64::MAX,
    ensures
        committed(w, c.bytes()) == w.replicated(c),
{
    crate::storage::recovermanager::log_store::law_command_round_trip(c);
}

/// Bytes that are cut off in a command, or that are none, change nothing.
pub proof fn law_no_command_changes_nothing(w: WriteView, data: Seq<u8>)
    requires
        !CommandView::complete(data) || CommandView::parse(data) is Err,
    ensures
        committed(w, data) == w,
        command_in(data) is None,
{
}

} // verus!
