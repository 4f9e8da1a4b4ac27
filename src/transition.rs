//! Transactions, and the output of one transition: the interpreter's return
//! values followed by the encoded change set, and the digest of those bytes
//! that is publicly committed.

use vstd::prelude::*;

use crate::changes::ChangeSet;
use crate::codec::{encoding, fits, serialize_changes, EncodeError};
use crate::resolver::{digest_of, sha256_of};

verus! {

/// An entry-point invocation. Type arguments are canonical type-tag
/// encodings; arguments are serialized values.
pub struct EntryFunction {
    pub module_address: Vec<u8>,
    pub module_name: Vec<u8>,
    pub function: Vec<u8>,
    pub ty_args: Vec<Vec<u8>>,
    pub args: Vec<Vec<u8>>,
}

pub enum TransactionPayload {
    EntryFunction(EntryFunction),
}

pub struct Transaction {
    pub payload: TransactionPayload,
}

/// The byte strings of `vs`, one after the other.
pub open spec fn concat(vs: Seq<Vec<u8>>) -> Seq<u8>
    decreases vs.len(),
{
    if vs.len() == 0 {
        Seq::empty()
    } else {
        concat(vs.drop_last()) + vs.last()@
    }
}

/// The full output of a transition and the digest to commit.
pub struct TransitionOutput {
    pub bytes: Vec<u8>,
    pub digest: Vec<u8>,
}

/// Builds the output of a transition from the interpreter's return values
/// and change set. Fails exactly when the change set cannot be encoded; no
/// output is produced then.
pub fn finalize(
    return_values: &Vec<Vec<u8>>,
    changes: &ChangeSet,
) -> (r: Result<TransitionOutput, EncodeError>)
    ensures
        r is Ok <==> fits(*changes),
        r matches Ok(out) ==> out.bytes@ == concat(return_values@) + encoding(*changes) && out.digest@
            == sha256_of(out.bytes@),
{
    let encoded = serialize_changes(changes)?;
    let mut bytes: Vec<u8> = Vec::new();
    let mut i: usize = 0;
    while i < return_values.len()
        invariant
            i <= return_values@.len(),
            bytes@ == concat(return_values@.take(i as int)),
        decreases return_values.len() - i,
    {
        assert(return_values@.take(i + 1).drop_last() =~= return_values@.take(i as int));
        let v = &return_values[i];
        let mut j: usize = 0;
        let ghost before = bytes@;
        while j < v.len()
            invariant
                j <= v@.len(),
                bytes@ == before + v@.subrange(0, j as int),
            decreases v.len() - j,
        {
            bytes.push(v[j]);
            j += 1;
            assert(bytes@ =~= before + v@.subrange(0, j as int));
        }
        assert(v@.subrange(0, v@.len() as int) =~= v@);
        i += 1;
    }
    assert(return_values@.take(return_values@.len() as int) =~= return_values@);
    let ghost before = bytes@;
    let mut j: usize = 0;
    while j < encoded.len()
        invariant
            j <= encoded@.len(),
            bytes@ == before + encoded@.subrange(0, j as int),
        decreases encoded.len() - j,
    {
        bytes.push(encoded[j]);
        j += 1;
        assert(bytes@ =~= before + encoded@.subrange(0, j as int));
    }
    assert(encoded@.subrange(0, encoded@.len() as int) =~= encoded@);
    let digest = digest_of(&bytes);
    Ok(TransitionOutput { bytes, digest })
}

/// Where a transition stands.
pub enum Phase {
    Start,
    RootBound,
    Executing,
    Finalized,
    Aborted,
}

/// What the surroundings report.
pub enum Event {
    /// The transaction and the commitment have been received.
    Begin,
    /// The commitment to the pre-state has been publicly committed.
    RootCommitted,
    /// The interpreter finished and the output was built.
    Succeeded,
    /// The interpreter, an authenticated read or the encoding failed.
    Failed,
}

/// What the surroundings must do next.
pub enum Action {
    /// Publicly commit the pre-state commitment.
    CommitRoot,
    /// Run the interpreter against the bound commitment.
    Execute,
    /// Publicly commit the output digest and hand out the output bytes.
    CommitOutput,
    /// Stop: no claim is produced.
    Abort,
    /// Nothing more: the transition is over.
    Stop,
}

/// One step of a transition. The pre-state is bound before execution, and
/// output is committed only after a successful execution; anything out of
/// order aborts.
pub open spec fn step_spec(p: Phase, e: Event) -> (Phase, Action) {
    match p {
        Phase::Start => match e {
            Event::Begin => (Phase::RootBound, Action::CommitRoot),
            _ => (Phase::Aborted, Action::Abort),
        },
        Phase::RootBound => match e {
            Event::RootCommitted => (Phase::Executing, Action::Execute),
            _ => (Phase::Aborted, Action::Abort),
        },
        Phase::Executing => match e {
            Event::Succeeded => (Phase::Finalized, Action::CommitOutput),
            _ => (Phase::Aborted, Action::Abort),
        },
        Phase::Finalized => (Phase::Finalized, Action::Stop),
        Phase::Aborted => (Phase::Aborted, Action::Stop),
    }
}

/// The phase reached and the actions asked for, from the start, over
/// `events`.
pub open spec fn run(events: Seq<Event>) -> (Phase, Seq<Action>)
    decreases events.len(),
{
    if events.len() == 0 {
        (Phase::Start, Seq::empty())
    } else {
        let (p, acts) = run(events.drop_last());
        let (q, a) = step_spec(p, events.last());
        (q, acts.push(a))
    }
}

/// Decides the next phase and action of a transition.
pub fn step(phase: Phase, event: Event) -> (r: (Phase, Action))
    ensures
        r == step_spec(phase, event),
{
    match phase {
        Phase::Start => match event {
            Event::Begin => (Phase::RootBound, Action::CommitRoot),
            _ => (Phase::Aborted, Action::Abort),
        },
        Phase::RootBound => match event {
            Event::RootCommitted => (Phase::Executing, Action::Execute),
            _ => (Phase::Aborted, Action::Abort),
        },
        Phase::Executing => match event {
            Event::Succeeded => (Phase::Finalized, Action::CommitOutput),
            _ => (Phase::Aborted, Action::Abort),
        },
        Phase::Finalized => (Phase::Finalized, Action::Stop),
        Phase::Aborted => (Phase::Aborted, Action::Stop),
    }
}

proof fn lemma_run_bound(events: Seq<Event>)
    ensures
        run(events).1.len() == events.len(),
        (run(events).0 is RootBound || run(events).0 is Executing || run(events).0 is Finalized) ==> exists|
            i: int,
        | 0 <= i < events.len() && #[trigger] run(events).1[i] is CommitRoot,
    decreases events.len(),
{
    if events.len() > 0 {
        let d = events.drop_last();
        lemma_run_bound(d);
        let (p, acts) = run(d);
        let (q, a) = step_spec(p, events.last());
        if (q is RootBound || q is Executing || q is Finalized) {
            if p is Start {
                assert(run(events).1[d.len() as int] is CommitRoot);
            } else {
                let i = choose|i: int| 0 <= i < d.len() && #[trigger] run(d).1[i] is CommitRoot;
                assert(run(events).1[i] == acts[i]);
            }
        }
    }
}

/// In every run of a transition, the output digest is committed only after
/// the pre-state commitment was.
pub proof fn lemma_root_before_output(events: Seq<Event>, j: int)
    requires
        0 <= j < run(events).1.len(),
        run(events).1[j] is CommitOutput,
    ensures
        exists|i: int| 0 <= i < j && #[trigger] run(events).1[i] is CommitRoot,
    decreases events.len(),
{
    lemma_run_bound(events);
    let d = events.drop_last();
    lemma_run_bound(d);
    let (p, acts) = run(d);
    if j < d.len() {
        assert(run(events).1[j] == acts[j]);
        lemma_root_before_output(d, j);
        let i = choose|i: int| 0 <= i < j && #[trigger] run(d).1[i] is CommitRoot;
        assert(run(events).1[i] == acts[i]);
    } else {
        assert(p is Executing);
        let i = choose|i: int| 0 <= i < d.len() && #[trigger] run(d).1[i] is CommitRoot;
        assert(run(events).1[i] == acts[i]);
    }
}

} // verus!
