//! Application messages: what is passed on, and what is sent out again.

use crate::bookie::{actor_knows, Bookie};
use crate::changes::{Change, ChangeV1, Changeset};
use crate::ingest::ChangeError;
use crate::known::{ActorId, Known};
use vstd::prelude::*;

verus! {

/// How many messages are handled in one batch at most.
pub const GOSSIP_BATCH_SIZE: usize = 512;

/// How long a batch is waited for, in milliseconds.
pub const GOSSIP_BATCH_MS: u64 = 500;

/// What a message of the first version of the protocol carries.
#[derive(Debug, PartialEq, Eq)]
pub enum MessageV1 {
    Change(ChangeV1),
}

/// An application message.
#[derive(Debug, PartialEq, Eq)]
pub enum Message {
    V1(MessageV1),
}

/// What is handed to the broadcaster.
#[derive(Debug, PartialEq, Eq)]
pub enum BroadcastInput {
    /// A message that came from another node and is sent on, with priority.
    Rebroadcast(Message),
    /// A message of this node's own.
    AddBroadcast(Message),
}

impl Message {
    /// The change that the message carries.
    pub open spec fn spec_change(&self) -> ChangeV1 {
        match *self {
            Message::V1(MessageV1::Change(change)) => change,
        }
    }

    /// The change that the message carries.
    pub fn change(&self) -> (c: &ChangeV1)
        ensures
            *c == self.spec_change(),
    {
        match self {
            Message::V1(MessageV1::Change(change)) => change,
        }
    }
}

/// Whether a message that came in is worth handling: it is not this node's
/// own, and the bookkeeping does not have all of it already.
pub open spec fn is_news(m: Map<ActorId, Map<int, Known>>, me: ActorId, msg: Message) -> bool {
    let change = msg.spec_change();
    &&& !actor_knows(
        m,
        change.actor_id,
        change.changeset.spec_versions(),
        change.changeset.spec_seqs(),
    )
    &&& change.actor_id != me
}

/// The messages of the list that are news, in their order.
pub open spec fn news(m: Map<ActorId, Map<int, Known>>, me: ActorId, msgs: Seq<Message>) -> Seq<
    Message,
>
    decreases msgs.len(),
{
    if msgs.len() == 0 {
        Seq::empty()
    } else {
        let before = news(m, me, msgs.drop_last());
        if is_news(m, me, msgs.last()) {
            before.push(msgs.last())
        } else {
            before
        }
    }
}

/// Whether a message that came in is worth handling.
pub fn should_handle(bookie: &Bookie, self_actor_id: ActorId, msg: &Message) -> (b: bool)
    requires
        bookie.wf(),
    ensures
        b == is_news(bookie@, self_actor_id, *msg),
{
    let change = msg.change();
    if bookie.contains(change.actor_id, change.changeset.versions(), change.changeset.seqs()) {
        return false;
    }
    change.actor_id != self_actor_id
}

/// Sorts out the messages decoded from a broadcast: those that are news
/// are handed on, in their order; what is known already, and what this node
/// sent itself, stops here.
pub fn handle_broadcast(messages: Vec<Message>, self_actor_id: ActorId, bookie: &Bookie) -> (out:
    Vec<Message>)
    requires
        bookie.wf(),
    ensures
        out@ == news(bookie@, self_actor_id, messages@),
{
    let mut out: Vec<Message> = Vec::new();
    let ghost all = messages@;
    for msg in it: messages
        invariant
            it.seq() == all,
            bookie.wf(),
            out@ == news(bookie@, self_actor_id, all.take(it.index() as int)),
    {
        proof {
            assert(all.take(it.index() + 1).drop_last() =~= all.take(it.index() as int));
            assert(all.take(it.index() + 1).last() == msg);
        }
        if should_handle(bookie, self_actor_id, &msg) {
            out.push(msg);
        }
    }
    assert(all.take(all.len() as int) =~= all);
    out
}

/// The message that passes on what taking in a change came to: the change
/// set that came out of it under the actor it came for, or nothing where
/// the change was known already.
pub fn process_msg(actor_id: ActorId, outcome: Option<Changeset>) -> (r: Option<Message>)
    ensures
        r == match outcome {
            Some(changeset) => Some(Message::V1(MessageV1::Change(ChangeV1 { actor_id, changeset }))),
            None => None,
        },
{
    match outcome {
        Some(changeset) => Some(Message::V1(MessageV1::Change(ChangeV1 { actor_id, changeset }))),
        None => None,
    }
}

/// Whether a message is worth sending out again: it carries changes, at
/// least one. News of empty versions is not, nor is a version of which no
/// change is left.
pub open spec fn carries_changes(msg: Message) -> bool {
    match msg.spec_change().changeset {
        Changeset::Full { changes, .. } => changes@.len() > 0,
        Changeset::Empty { .. } => false,
    }
}

/// Whether a message is worth sending out again.
pub fn is_worth_sending(msg: &Message) -> (b: bool)
    ensures
        b == carries_changes(*msg),
{
    match &msg.change().changeset {
        Changeset::Full { changes, .. } => changes.len() > 0,
        Changeset::Empty { .. } => false,
    }
}

/// The first failure among the results, if one failed.
pub open spec fn first_failure(results: Seq<Result<Option<Message>, ChangeError>>) -> Option<
    ChangeError,
>
    decreases results.len(),
{
    if results.len() == 0 {
        None
    } else {
        match first_failure(results.drop_last()) {
            Some(e) => Some(e),
            None => match results.last() {
                Err(e) => Some(e),
                Ok(_) => None,
            },
        }
    }
}

/// What the results leave to send out again: a rebroadcast of each message
/// that came out of taking one in and carries changes, in their order.
pub open spec fn rebroadcasts(results: Seq<Result<Option<Message>, ChangeError>>) -> Seq<
    BroadcastInput,
>
    decreases results.len(),
{
    if results.len() == 0 {
        Seq::empty()
    } else {
        let before = rebroadcasts(results.drop_last());
        match results.last() {
            Ok(Some(msg)) => if carries_changes(msg) {
                before.push(BroadcastInput::Rebroadcast(msg))
            } else {
                before
            },
            _ => before,
        }
    }
}

/// A failure among the first results is the first failure among them all.
proof fn lemma_failure_stays(results: Seq<Result<Option<Message>, ChangeError>>, k: int)
    requires
        0 <= k <= results.len(),
        first_failure(results.take(k)) is Some,
    ensures
        first_failure(results) == first_failure(results.take(k)),
    decreases results.len() - k,
{
    if k < results.len() {
        assert(results.take(k + 1).drop_last() =~= results.take(k));
        lemma_failure_stays(results, k + 1);
    } else {
        assert(results.take(k) =~= results);
    }
}

/// Gathers what a batch of messages leaves to send out again, given what
/// taking in each came to, in their order. Where taking one in failed, the
/// batch fails with the first failure and nothing is sent out again. Else
/// each message that came out and carries changes is rebroadcast, in their
/// order; what was known already left no message, and a message without a
/// change is not passed on.
pub fn handle_gossip(results: Vec<Result<Option<Message>, ChangeError>>) -> (r: Result<
    Vec<BroadcastInput>,
    ChangeError,
>)
    ensures
        match first_failure(results@) {
            Some(e) => r == Err::<Vec<BroadcastInput>, ChangeError>(e),
            None => r matches Ok(out) && out@ == rebroadcasts(results@),
        },
{
    let mut out: Vec<BroadcastInput> = Vec::new();
    let ghost all = results@;
    for result in it: results
        invariant
            it.seq() == all,
            first_failure(all.take(it.index() as int)) is None,
            out@ == rebroadcasts(all.take(it.index() as int)),
    {
        proof {
            assert(all.take(it.index() + 1).drop_last() =~= all.take(it.index() as int));
            assert(all.take(it.index() + 1).last() == result);
        }
        match result {
            Ok(Some(msg)) => {
                if is_worth_sending(&msg) {
                    out.push(BroadcastInput::Rebroadcast(msg));
                }
            },
            Ok(None) => {},
            Err(e) => {
                proof {
                    lemma_failure_stays(all, it.index() + 1);
                }
                return Err(e);
            },
        }
    }
    assert(all.take(all.len() as int) =~= all);
    Ok(out)
}

/// The name under which messages of a priority are counted.
pub fn priority_label(high_priority: bool) -> (s: &'static str)
    ensures
        s@ == (if high_priority {
            "high"@
        } else {
            "normal"@
        }),
{
    if high_priority {
        "high"
    } else {
        "normal"
    }
}

/// Something that follows the changes of the store, such as a
/// subscription. It says whether it could take the changes.
pub trait ChangeMatcher {
    fn process_change(&self, changes: &Vec<Change>) -> bool;
}

/// The matchers whose identity is not listed, in their order.
pub open spec fn without<M>(matchers: Seq<(u128, M)>, ids: Seq<u128>) -> Seq<(u128, M)>
    decreases matchers.len(),
{
    if matchers.len() == 0 {
        Seq::empty()
    } else {
        let before = without(matchers.drop_last(), ids);
        if ids.contains(matchers.last().0) {
            before
        } else {
            before.push(matchers.last())
        }
    }
}

/// Whether some matcher of the list has the identity `id`.
pub open spec fn has_matcher<M>(matchers: Seq<(u128, M)>, id: u128) -> bool {
    exists|j: int| 0 <= j < matchers.len() && (#[trigger] matchers[j]).0 == id
}

/// The identities of the matchers that answered no, in the order of the
/// matchers: `answers[i]` says whether matcher `i` could take the changes.
pub open spec fn refused<M>(matchers: Seq<(u128, M)>, answers: Seq<bool>) -> Seq<u128>
    decreases matchers.len(),
{
    if matchers.len() == 0 {
        Seq::empty()
    } else {
        let before = refused(matchers.drop_last(), answers.drop_last());
        if answers[matchers.len() - 1] {
            before
        } else {
            before.push(matchers.last().0)
        }
    }
}

/// Every identity among those that answered no is that of a matcher.
pub proof fn lemma_refused_are_matchers<M>(matchers: Seq<(u128, M)>, answers: Seq<bool>)
    requires
        answers.len() == matchers.len(),
    ensures
        forall|i: int|
            0 <= i < refused(matchers, answers).len() ==> has_matcher(
                matchers,
                #[trigger] refused(matchers, answers)[i],
            ),
    decreases matchers.len(),
{
    if matchers.len() > 0 {
        let front = matchers.drop_last();
        let before = refused(front, answers.drop_last());
        lemma_refused_are_matchers(front, answers.drop_last());
        assert forall|i: int| 0 <= i < refused(matchers, answers).len() implies has_matcher(
            matchers,
            #[trigger] refused(matchers, answers)[i],
        ) by {
            if i < before.len() {
                assert(refused(matchers, answers)[i] == before[i]);
                let j = choose|j: int| 0 <= j < front.len() && (#[trigger] front[j]).0 == before[i];
                assert(matchers[j].0 == before[i]);
            } else {
                assert(matchers[matchers.len() - 1].0 == refused(matchers, answers)[i]);
            }
        }
    }
}

/// Hands the changes to every matcher, in the order of the list, and
/// gathers the answers: one for each matcher, and what each says is up to
/// the matcher.
pub fn ask_matchers<M: ChangeMatcher>(matchers: &Vec<(u128, M)>, changes: &Vec<Change>) -> (answers:
    Vec<bool>)
    ensures
        answers@.len() == matchers@.len(),
{
    let mut answers: Vec<bool> = Vec::new();
    let mut i: usize = 0;
    while i < matchers.len()
        invariant
            i <= matchers@.len(),
            answers@.len() == i,
        decreases matchers@.len() - i,
    {
        answers.push(matchers[i].1.process_change(changes));
        i = i + 1;
    }
    answers
}

/// Lists the matchers that answered no, in the order of the matchers.
pub fn refused_by<M>(matchers: &Vec<(u128, M)>, answers: &Vec<bool>) -> (failed: Vec<u128>)
    requires
        answers@.len() == matchers@.len(),
    ensures
        failed@ == refused(matchers@, answers@),
{
    let mut failed: Vec<u128> = Vec::new();
    let mut i: usize = 0;
    while i < matchers.len()
        invariant
            i <= matchers@.len(),
            answers@.len() == matchers@.len(),
            failed@ == refused(matchers@.take(i as int), answers@.take(i as int)),
        decreases matchers@.len() - i,
    {
        proof {
            assert(matchers@.take(i + 1).drop_last() =~= matchers@.take(i as int));
            assert(answers@.take(i + 1).drop_last() =~= answers@.take(i as int));
            assert(matchers@.take(i + 1).last() == matchers@[i as int]);
            assert(answers@.take(i + 1)[i as int] == answers@[i as int]);
        }
        if !answers[i] {
            failed.push(matchers[i].0);
        }
        i = i + 1;
    }
    proof {
        assert(matchers@.take(i as int) =~= matchers@);
        assert(answers@.take(i as int) =~= answers@);
    }
    failed
}

/// Hands the changes to every matcher and lists the matchers that could
/// not take them, in the order of the matchers. What each matcher answers
/// is up to it: the list is the one that [`refused`] gives for the
/// answers that came, one from each matcher. Each one listed is a
/// matcher.
pub fn failed_matchers<M: ChangeMatcher>(matchers: &Vec<(u128, M)>, changes: &Vec<Change>) -> (failed:
    Vec<u128>)
    ensures
        exists|answers: Seq<bool>|
            answers.len() == matchers@.len() && failed@ == #[trigger] refused(matchers@, answers),
        forall|i: int| 0 <= i < failed@.len() ==> has_matcher(matchers@, #[trigger] failed@[i]),
{
    let answers = ask_matchers(matchers, changes);
    let failed = refused_by(matchers, &answers);
    proof {
        lemma_refused_are_matchers(matchers@, answers@);
        assert(answers@.len() == matchers@.len() && failed@ == refused(matchers@, answers@));
    }
    failed
}

/// Whether `id` is among the identities listed.
fn is_listed(ids: &Vec<u128>, id: u128) -> (b: bool)
    ensures
        b == ids@.contains(id),
{
    let mut i: usize = 0;
    while i < ids.len()
        invariant
            i <= ids@.len(),
            forall|j: int| 0 <= j < i ==> ids@[j] != id,
        decreases ids@.len() - i,
    {
        if ids[i] == id {
            return true;
        }
        i = i + 1;
    }
    false
}

/// Removes the matchers whose identity is listed; the others stay, in their
/// order.
pub fn remove_matchers<M>(matchers: &mut Vec<(u128, M)>, ids: &Vec<u128>)
    ensures
        final(matchers)@ == without(old(matchers)@, ids@),
{
    let ghost all = matchers@;
    let mut kept: Vec<(u128, M)> = Vec::new();
    let mut taken: Vec<(u128, M)> = Vec::new();
    std::mem::swap(matchers, &mut taken);
    for entry in it: taken
        invariant
            it.seq() == all,
            kept@ == without(all.take(it.index() as int), ids@),
    {
        proof {
            assert(all.take(it.index() + 1).drop_last() =~= all.take(it.index() as int));
            assert(all.take(it.index() + 1).last() == entry);
        }
        if !is_listed(ids, entry.0) {
            kept.push(entry);
        }
    }
    assert(all.take(all.len() as int) =~= all);
    *matchers = kept;
}

/// Tells every matcher of the changes and drops the matchers that could not
/// take them. The others stay, in their order: what is left is the list
/// without some of its matchers.
pub fn process_subs<M: ChangeMatcher>(matchers: &mut Vec<(u128, M)>, changeset: &Vec<Change>)
    ensures
        exists|failed: Seq<u128>| final(matchers)@ == without(old(matchers)@, failed),
{
    let failed = failed_matchers(matchers, changeset);
    remove_matchers(matchers, &failed);
}

} // verus!
