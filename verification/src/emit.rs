//! The emission of changes to a stream, one message at a time.
//!
//! An `Emission` says what it has to do next, and is told how that went. It
//! connects to the stream, sends one message for each change, in order, and stops
//! at the first failure. Without changes it does nothing.

use vstd::prelude::*;

use crate::changes::change_views;
use crate::json::{change_bytes, json_encoding, law_payload_members, payload, JsonView};
use crate::model::{text_of, ChangeView, ObservedChange, ObservedChangeKind, WATCHER_NAME};

verus! {

/// A message to a stream.
#[derive(Debug)]
pub struct Message {
    pub topic: String,
    pub content_type: Option<String>,
    pub data: Vec<u8>,
    pub metadata: Vec<(String, String)>,
}

/// A message, with texts for strings.
pub struct MessageView {
    pub topic: Seq<char>,
    pub content_type: Option<Seq<char>>,
    pub data: Seq<u8>,
    pub metadata: Seq<(Seq<char>, Seq<char>)>,
}

/// Pairs, with texts for strings.
pub open spec fn text_pairs(pairs: Seq<(String, String)>) -> Seq<(Seq<char>, Seq<char>)> {
    pairs.map_values(|pair: (String, String)| (pair.0@, pair.1@))
}

impl View for Message {
    type V = MessageView;

    open spec fn view(&self) -> MessageView {
        MessageView {
            topic: self.topic@,
            content_type: text_of(self.content_type),
            data: self.data@,
            metadata: text_pairs(self.metadata@),
        }
    }
}

/// The topic of the messages about a kind of change.
pub open spec fn topic_word(kind: ObservedChangeKind) -> Seq<char> {
    match kind {
        ObservedChangeKind::Created => "file-created"@,
        ObservedChangeKind::Modified => "file-modified"@,
        ObservedChangeKind::Deleted => "file-deleted"@,
    }
}

/// The message about a change: its JSON text, under the topic of its kind.
pub open spec fn message_about(stream: Seq<char>, change: ChangeView) -> MessageView {
    MessageView {
        topic: topic_word(change.change_kind),
        content_type: Some("application/json"@),
        data: json_encoding(payload(change)),
        metadata: seq![("watcher"@, WATCHER_NAME@), ("stream"@, stream)],
    }
}

fn topic(kind: ObservedChangeKind) -> (word: &'static str)
    ensures
        word@ == topic_word(kind),
{
    match kind {
        ObservedChangeKind::Created => "file-created",
        ObservedChangeKind::Modified => "file-modified",
        ObservedChangeKind::Deleted => "file-deleted",
    }
}

/// The message about a change.
pub fn change_message(stream: &str, change: &ObservedChange) -> (message: Message)
    ensures
        message@ == message_about(stream@, change@),
{
    let mut metadata: Vec<(String, String)> = Vec::new();
    metadata.push(("watcher".to_string(), WATCHER_NAME.to_string()));
    metadata.push(("stream".to_string(), stream.to_string()));
    assert(text_pairs(metadata@) =~= seq![("watcher"@, WATCHER_NAME@), ("stream"@, stream@)]);
    Message {
        topic: topic(change.change_kind).to_string(),
        content_type: Some("application/json".to_string()),
        data: change_bytes(change),
        metadata,
    }
}

/// How many changes were emitted, and how many of each kind.
#[derive(Debug, Clone, Copy, PartialEq, Eq, Structural)]
pub struct EmitTotals {
    pub emitted: u64,
    pub created: u64,
    pub modified: u64,
    pub deleted: u64,
}

/// How many of the changes are of a kind.
pub open spec fn count_of(changes: Seq<ChangeView>, kind: ObservedChangeKind) -> nat
    decreases changes.len(),
{
    if changes.len() == 0 {
        0
    } else {
        count_of(changes.drop_last(), kind) + if changes.last().change_kind == kind {
            1nat
        } else {
            0nat
        }
    }
}

/// The counts of changes.
pub struct TallyView {
    pub emitted: nat,
    pub created: nat,
    pub modified: nat,
    pub deleted: nat,
}

impl View for EmitTotals {
    type V = TallyView;

    open spec fn view(&self) -> TallyView {
        TallyView {
            emitted: self.emitted as nat,
            created: self.created as nat,
            modified: self.modified as nat,
            deleted: self.deleted as nat,
        }
    }
}

/// How many changes there are, and how many of each kind.
pub open spec fn tally_of(changes: Seq<ChangeView>) -> TallyView {
    TallyView {
        emitted: changes.len(),
        created: count_of(changes, ObservedChangeKind::Created),
        modified: count_of(changes, ObservedChangeKind::Modified),
        deleted: count_of(changes, ObservedChangeKind::Deleted),
    }
}

/// Counts changes.
pub fn tally(changes: &Vec<ObservedChange>) -> (totals: EmitTotals)
    ensures
        totals@ == tally_of(change_views(changes@)),
{
    let mut totals = EmitTotals { emitted: 0, created: 0, modified: 0, deleted: 0 };
    let ghost views = change_views(changes@);
    let mut i: usize = 0;
    while i < changes.len()
        invariant
            i <= changes@.len(),
            views == change_views(changes@),
            totals@ == tally_of(views.take(i as int)),
            totals.created + totals.modified + totals.deleted == i,
        decreases changes@.len() - i,
    {
        assert(views.take(i + 1).drop_last() =~= views.take(i as int));
        assert(views.take(i + 1).last() == changes@[i as int]@);
        match changes[i].change_kind {
            ObservedChangeKind::Created => {
                totals.created = totals.created + 1;
            },
            ObservedChangeKind::Modified => {
                totals.modified = totals.modified + 1;
            },
            ObservedChangeKind::Deleted => {
                totals.deleted = totals.deleted + 1;
            },
        }
        totals.emitted = totals.emitted + 1;
        i = i + 1;
    }
    assert(views.take(i as int) =~= views);
    totals
}

/// What an emission has to do next.
pub enum EmitAction {
    /// Connect to a stream.
    Connect(String),
    /// Send a message to it.
    Send(Message),
    /// Nothing: the emission is over.
    Finish,
}

/// What an emission has to do next, with texts for strings.
pub enum EmitActionView {
    Connect(Seq<char>),
    Send(MessageView),
    Finish,
}

impl View for EmitAction {
    type V = EmitActionView;

    open spec fn view(&self) -> EmitActionView {
        match self {
            EmitAction::Connect(stream) => EmitActionView::Connect(stream@),
            EmitAction::Send(message) => EmitActionView::Send(message@),
            EmitAction::Finish => EmitActionView::Finish,
        }
    }
}

/// How it went.
pub enum EmitEvent {
    Connected(Result<(), String>),
    Sent(Result<(), String>),
}

/// How it went, with texts for strings.
pub enum EmitEventView {
    Connected(Result<(), Seq<char>>),
    Sent(Result<(), Seq<char>>),
}

impl View for EmitEvent {
    type V = EmitEventView;

    open spec fn view(&self) -> EmitEventView {
        match self {
            EmitEvent::Connected(Ok(_)) => EmitEventView::Connected(Ok(())),
            EmitEvent::Connected(Err(error)) => EmitEventView::Connected(Err(error@)),
            EmitEvent::Sent(Ok(_)) => EmitEventView::Sent(Ok(())),
            EmitEvent::Sent(Err(error)) => EmitEventView::Sent(Err(error@)),
        }
    }
}

enum EmitStep {
    Connect,
    Send(usize),
    Done,
    Failed(String),
}

/// Where an emission stands: what it waits for, or how it ended.
pub enum EmitStepView {
    Connect,
    Send(int),
    Done,
    Failed(Seq<char>),
}

impl View for EmitStep {
    type V = EmitStepView;

    closed spec fn view(&self) -> EmitStepView {
        match self {
            EmitStep::Connect => EmitStepView::Connect,
            EmitStep::Send(i) => EmitStepView::Send(*i as int),
            EmitStep::Done => EmitStepView::Done,
            EmitStep::Failed(error) => EmitStepView::Failed(error@),
        }
    }
}

/// The state of an emission.
pub struct EmissionView {
    pub stream: Seq<char>,
    pub changes: Seq<ChangeView>,
    pub step: EmitStepView,
}

/// An emission that has not begun. Without changes it is over at once.
pub open spec fn emission_start(stream: Seq<char>, changes: Seq<ChangeView>) -> EmissionView {
    EmissionView {
        stream,
        changes,
        step: if changes.len() == 0 {
            EmitStepView::Done
        } else {
            EmitStepView::Connect
        },
    }
}

/// What an emission has to do next.
pub open spec fn next_emit(emission: EmissionView) -> EmitActionView {
    match emission.step {
        EmitStepView::Connect => EmitActionView::Connect(emission.stream),
        EmitStepView::Send(i) => EmitActionView::Send(
            message_about(emission.stream, emission.changes[i]),
        ),
        _ => EmitActionView::Finish,
    }
}

/// The step after the one at which `i` messages are sent.
pub open spec fn send_step(i: int, len: nat) -> EmitStepView {
    if i < len {
        EmitStepView::Send(i)
    } else {
        EmitStepView::Done
    }
}

/// The state of an emission after it was told how it went. What it did not ask for
/// it takes no notice of.
pub open spec fn emission_after(emission: EmissionView, event: EmitEventView) -> EmissionView {
    let step = match (emission.step, event) {
        (EmitStepView::Connect, EmitEventView::Connected(Ok(_))) => send_step(
            0,
            emission.changes.len(),
        ),
        (EmitStepView::Connect, EmitEventView::Connected(Err(error))) => EmitStepView::Failed(error),
        (EmitStepView::Send(i), EmitEventView::Sent(Ok(_))) => send_step(
            i + 1,
            emission.changes.len(),
        ),
        (EmitStepView::Send(i), EmitEventView::Sent(Err(error))) => EmitStepView::Failed(error),
        (step, _) => step,
    };
    EmissionView { step, ..emission }
}

/// The emission of changes.
pub struct Emission {
    stream: String,
    changes: Vec<ObservedChange>,
    step: EmitStep,
}

impl View for Emission {
    type V = EmissionView;

    closed spec fn view(&self) -> EmissionView {
        EmissionView {
            stream: self.stream@,
            changes: change_views(self.changes@),
            step: self.step@,
        }
    }
}

impl Emission {
    #[verifier::type_invariant]
    spec fn next_is_there(self) -> bool {
        self.step matches EmitStep::Send(i) ==> i < self.changes@.len()
    }

    /// An emission that has not begun.
    pub fn new(stream: &str, changes: Vec<ObservedChange>) -> (emission: Self)
        ensures
            emission@ == emission_start(stream@, change_views(changes@)),
    {
        let step = if changes.len() == 0 {
            EmitStep::Done
        } else {
            EmitStep::Connect
        };
        Emission { stream: stream.to_string(), changes, step }
    }

    /// What to do next.
    pub fn action(&self) -> (action: EmitAction)
        ensures
            action@ == next_emit(self@),
    {
        proof {
            use_type_invariant(self);
        }
        match &self.step {
            EmitStep::Connect => EmitAction::Connect(self.stream.clone()),
            EmitStep::Send(i) => EmitAction::Send(
                change_message(self.stream.as_str(), &self.changes[*i]),
            ),
            EmitStep::Done => EmitAction::Finish,
            EmitStep::Failed(_error) => EmitAction::Finish,
        }
    }

    /// Takes how it went, and goes on.
    pub fn advance(&mut self, event: EmitEvent)
        ensures
            final(self)@ == emission_after(old(self)@, event@),
    {
        proof {
            use_type_invariant(&*self);
        }
        let len: usize = self.changes.len();
        match (&self.step, event) {
            (EmitStep::Connect, EmitEvent::Connected(connected)) => match connected {
                Ok(_) => {
                    self.step = if len > 0 {
                        EmitStep::Send(0)
                    } else {
                        EmitStep::Done
                    };
                },
                Err(error) => {
                    self.step = EmitStep::Failed(error);
                },
            },
            (EmitStep::Send(i), EmitEvent::Sent(sent)) => match sent {
                Ok(_) => {
                    let next: usize = *i + 1;
                    self.step = if next < len {
                        EmitStep::Send(next)
                    } else {
                        EmitStep::Done
                    };
                },
                Err(error) => {
                    self.step = EmitStep::Failed(error);
                },
            },
            _ => {},
        }
    }

    /// Tells whether the emission is over.
    pub fn is_over(&self) -> (over: bool)
        ensures
            over == (self@.step is Done || self@.step is Failed),
    {
        match &self.step {
            EmitStep::Done => true,
            EmitStep::Failed(_error) => true,
            _ => false,
        }
    }

    /// How many changes were emitted, or why the emission failed, once it is over.
    pub fn outcome(self) -> (outcome: Option<Result<EmitTotals, String>>)
        ensures
            match outcome {
                Some(Ok(totals)) => self@.step is Done && totals@ == tally_of(self@.changes),
                Some(Err(error)) => self@.step == EmitStepView::Failed(error@),
                None => !(self@.step is Done) && !(self@.step is Failed),
            },
    {
        match self.step {
            EmitStep::Done => Some(Ok(tally(&self.changes))),
            EmitStep::Failed(error) => Some(Err(error)),
            _ => None,
        }
    }
}

/// Every change is of one of the three kinds: the numbers of created, modified and
/// deleted files add up to the number of changes.
pub proof fn law_totals_add_up(changes: Seq<ChangeView>)
    ensures
        tally_of(changes).created + tally_of(changes).modified + tally_of(changes).deleted
            == tally_of(changes).emitted,
    decreases changes.len(),
{
    if changes.len() > 0 {
        law_totals_add_up(changes.drop_last());
    }
}

/// An emission to which every send goes through, after `n` of them.
pub open spec fn emission_run(stream: Seq<char>, changes: Seq<ChangeView>, n: nat) -> EmissionView
    decreases n,
{
    if n == 0 {
        emission_after(emission_start(stream, changes), EmitEventView::Connected(Ok(())))
    } else {
        emission_after(
            emission_run(stream, changes, (n - 1) as nat),
            EmitEventView::Sent(Ok(())),
        )
    }
}

/// Each change is sent once, in order: after `n` sends the next message is the one
/// about the change at `n`, and after as many as there are changes the emission is
/// done.
pub proof fn law_each_change_is_sent_once(stream: Seq<char>, changes: Seq<ChangeView>, n: nat)
    ensures
        n < changes.len() ==> next_emit(emission_run(stream, changes, n)) == EmitActionView::Send(
            message_about(stream, changes[n as int]),
        ),
        n >= changes.len() ==> emission_run(stream, changes, n).step is Done,
        emission_run(stream, changes, n).changes == changes,
        emission_run(stream, changes, n).stream == stream,
        n < changes.len() ==> emission_run(stream, changes, n).step == EmitStepView::Send(n as int),
    decreases n,
{
    if n > 0 {
        law_each_change_is_sent_once(stream, changes, (n - 1) as nat);
    }
}

/// Without changes nothing is done; with changes the first thing is to connect.
pub proof fn law_nothing_to_emit(stream: Seq<char>, changes: Seq<ChangeView>)
    ensures
        changes.len() == 0 ==> next_emit(emission_start(stream, changes)) == EmitActionView::Finish,
        changes.len() > 0 ==> next_emit(emission_start(stream, changes)) == EmitActionView::Connect(
            stream,
        ),
{
}

/// The first failure ends an emission, with its text.
pub proof fn law_first_failure_ends_the_emission(emission: EmissionView, error: Seq<char>)
    ensures
        emission.step is Connect ==> emission_after(
            emission,
            EmitEventView::Connected(Err(error)),
        ).step == EmitStepView::Failed(error),
        emission.step is Send ==> emission_after(emission, EmitEventView::Sent(Err(error))).step
            == EmitStepView::Failed(error),
        forall|event: EmitEventView|
            emission.step is Failed ==> #[trigger] emission_after(emission, event) == emission,
{
}

/// The messages about two kinds of change have two topics.
pub proof fn law_topics_differ(a: ObservedChangeKind, b: ObservedChangeKind)
    requires
        topic_word(a) == topic_word(b),
    ensures
        a == b,
{
    reveal_strlit("file-created");
    reveal_strlit("file-modified");
    reveal_strlit("file-deleted");
    assert("file-created"@[5] != "file-deleted"@[5]);
    assert("file-modified"@.len() == 13);
}

/// The totals count the changes, and those of each kind one by one.
pub proof fn law_totals_count_each_kind(changes: Seq<ChangeView>)
    ensures
        tally_of(changes).emitted == changes.len(),
        tally_of(changes).created == changes.filter(
            |change: ChangeView| change.change_kind == ObservedChangeKind::Created,
        ).len(),
        tally_of(changes).modified == changes.filter(
            |change: ChangeView| change.change_kind == ObservedChangeKind::Modified,
        ).len(),
        tally_of(changes).deleted == changes.filter(
            |change: ChangeView| change.change_kind == ObservedChangeKind::Deleted,
        ).len(),
    decreases changes.len(),
{
    reveal(Seq::filter);
    if changes.len() > 0 {
        law_totals_count_each_kind(changes.drop_last());
    }
}

/// What a message says of a change, whatever the stream: its topic is that of the kind,
/// it says who watched and on which stream, and its data are the JSON text of an object
/// with nine members, the nine parts of that very change. What the change does not have
/// is null.
pub proof fn law_message_says_all_of_the_change(stream: Seq<char>, change: ChangeView)
    ensures
        ({
            let message = message_about(stream, change);
            &&& change.change_kind == ObservedChangeKind::Created ==> message.topic
                == "file-created"@
            &&& change.change_kind == ObservedChangeKind::Modified ==> message.topic
                == "file-modified"@
            &&& change.change_kind == ObservedChangeKind::Deleted ==> message.topic
                == "file-deleted"@
            &&& message.content_type == Some("application/json"@)
            &&& message.metadata == seq![
                ("watcher"@, "folder-watch-actor"@),
                ("stream"@, stream),
            ]
            &&& exists|members: Map<Seq<char>, JsonView>|
                {
                    &&& message.data == #[trigger] json_encoding(members)
                    &&& members.dom() == set![
                        "watcher"@,
                        "stream"@,
                        "change_kind"@,
                        "absolute_path"@,
                        "relative_path"@,
                        "size_bytes"@,
                        "modified_unix_ms"@,
                        "sha256"@,
                        "detected_at"@,
                    ]
                    &&& members["watcher"@] == JsonView::Text(change.watcher)
                    &&& members["stream"@] == JsonView::Text(change.stream_name)
                    &&& members["change_kind"@] == JsonView::Text(
                        match change.change_kind {
                            ObservedChangeKind::Created => "created"@,
                            ObservedChangeKind::Modified => "modified"@,
                            ObservedChangeKind::Deleted => "deleted"@,
                        },
                    )
                    &&& members["absolute_path"@] == JsonView::Text(change.absolute_path)
                    &&& members["relative_path"@] == JsonView::Text(change.relative_path)
                    &&& members["size_bytes"@] == match change.size_bytes {
                        Some(size) => JsonView::Number(size),
                        None => JsonView::Null,
                    }
                    &&& members["modified_unix_ms"@] == match change.modified_unix_ms {
                        Some(ms) => JsonView::Number(ms),
                        None => JsonView::Null,
                    }
                    &&& members["sha256"@] == match change.sha256 {
                        Some(digest) => JsonView::Text(digest),
                        None => JsonView::Null,
                    }
                    &&& members["detected_at"@] == JsonView::Text(change.detected_at)
                }
        }),
{
    law_payload_members(change);
    assert(message_about(stream, change).data == json_encoding(payload(change)));
}

/// The view of a message has each of its parts.
pub proof fn law_view_of_a_message(message: Message)
    ensures
        message@.topic == message.topic@,
        message.content_type matches Some(text) ==> message@.content_type == Some(text@),
        message.content_type is None ==> message@.content_type is None,
        message@.data == message.data@,
        message@.metadata.len() == message.metadata@.len(),
        forall|i: int|
            0 <= i < message.metadata@.len() ==> #[trigger] message@.metadata[i] == (
                message.metadata@[i].0@,
                message.metadata@[i].1@,
            ),
{
}

/// The view of totals has each of them.
pub proof fn law_view_of_totals(totals: EmitTotals)
    ensures
        totals@.emitted == totals.emitted,
        totals@.created == totals.created,
        totals@.modified == totals.modified,
        totals@.deleted == totals.deleted,
{
}

/// The view of what an emission has to do, and of how it went, is just that.
pub proof fn law_views_of_an_emission(stream: String, message: Message, error: String)
    ensures
        EmitAction::Connect(stream)@ == EmitActionView::Connect(stream@),
        EmitAction::Send(message)@ == EmitActionView::Send(message@),
        EmitAction::Finish@ == EmitActionView::Finish,
        EmitEvent::Connected(Ok(()))@ == EmitEventView::Connected(Ok(())),
        EmitEvent::Connected(Err(error))@ == EmitEventView::Connected(Err(error@)),
        EmitEvent::Sent(Ok(()))@ == EmitEventView::Sent(Ok(())),
        EmitEvent::Sent(Err(error))@ == EmitEventView::Sent(Err(error@)),
{
}

} // verus!
