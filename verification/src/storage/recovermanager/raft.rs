//! Commands in the entries of a replicated log.
use vstd::prelude::*;
use crate::storage::keyed;
use crate::storage::recovermanager::log_store;
use crate::storage::recovermanager::log_store::{CommandView, LogCommand};
use crate::storage::recovermanager::wal;

verus! {

/// The commands in log entries. An entry of an unknown type is left out.
pub open spec fn commands_in(entries: Seq<Seq<u8>>) -> Seq<CommandView>
    decreases entries.len(),
{
    if entries.len() == 0 {
        seq![]
    } else {
        let front = commands_in(entries.drop_last());
        match CommandView::parse(entries.last()) {
            Ok(c) => front.push(c),
            Err(_) => front,
        }
    }
}

/// The commands in log entries, which all are complete.
pub fn recover_commands(entries: &Vec<Vec<u8>>) -> (out: Vec<LogCommand>)
    requires
        forall|i: int| 0 <= i < entries@.len() ==> CommandView::complete(#[trigger] entries@[i]@),
    ensures
        keyed::views(out@) == commands_in(wal::file_bytes(entries@)),
{
    let ghost all = wal::file_bytes(entries@);
    let mut out: Vec<LogCommand> = Vec::new();
    let mut i: usize = 0;
    assert(keyed::views(out@) =~= commands_in(all.take(0)));
    while i < entries.len()
        invariant
            i <= entries@.len(),
            all == wal::file_bytes(entries@),
            forall|j: int|
                0 <= j < entries@.len() ==> CommandView::complete(#[trigger] entries@[j]@),
            keyed::views(out@) == commands_in(all.take(i as int)),
        decreases entries@.len() - i,
    {
        let ghost before = keyed::views(out@);
        proof {
            assert(all.take(i + 1).drop_last() =~= all.take(i as int));
            assert(all.take(i + 1).last() == entries@[i as int]@);
        }
        match LogCommand::deserialize(entries[i].as_slice()) {
            Ok(command) => {
                let ghost c = command@;
                out.push(command);
                assert(keyed::views(out@) =~= before.push(c));
            },
            Err(_) => {},
        }
        i = i + 1;
    }
    assert(all.take(i as int) =~= all);
    out
}

/// Recovery gives back the commands that were appended, in order.
pub proof fn law_appended_commands_recovered(commands: Seq<CommandView>)
    requires
        forall|i: int|
            0 <= i < commands.len() ==> (#[trigger] commands[i]).key.len() <= u64::MAX
                && commands[i].value.len() <= u64::MAX,
    ensures
        commands_in(Seq::new(commands.len(), |i: int| commands[i].bytes())) == commands,
    decreases commands.len(),
{
    let entries = Seq::new(commands.len(), |i: int| commands[i].bytes());
    if commands.len() > 0 {
        let front = commands.drop_last();
        assert forall|i: int| 0 <= i < front.len() implies (#[trigger] front[i]).key.len()
            <= u64::MAX && front[i].value.len() <= u64::MAX by {
            assert(front[i] == commands[i]);
        }
        law_appended_commands_recovered(front);
        log_store::law_command_round_trip(commands.last());
        assert(entries.drop_last() =~= Seq::new(front.len(), |i: int| front[i].bytes()));
        assert(front.push(commands.last()) =~= commands);
    } else {
        assert(commands =~= seq![]);
    }
}

/// One more entry of the log adds the command that it has behind the others; bytes that
/// are no command add nothing.
pub proof fn law_commands_one_by_one(entries: Seq<Seq<u8>>, data: Seq<u8>)
    ensures
        commands_in(Seq::<Seq<u8>>::empty()).len() == 0,
        commands_in(entries.push(data)) == (match CommandView::parse(data) {
            Ok(c) => commands_in(entries).push(c),
            Err(_) => commands_in(entries),
        }),
{
    assert(entries.push(data).drop_last() =~= entries);
    assert(entries.push(data).last() == data);
}

} // verus!
