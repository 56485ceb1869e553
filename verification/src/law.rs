//! Laws and the action engine.
//!
//! A [`Law`] is a named, ordered sequence of [`LegalAction`]s. Executing a
//! law runs its actions in declaration order against an [`ActionHandler`]
//! capability and stops at the first failure (fail-fast, no rollback):
//! earlier effects stay applied, later actions are never attempted.
//! Rendering a law produces a deterministic human-readable description
//! with no side effects.

use vstd::prelude::*;
use vstd::string::StringExecFns;

verus! {

/// The mathematical value of a single action.
#[verifier::ext_equal]
pub enum ActionModel {
    CreateChannel { name: Seq<char> },
}

/// The mathematical value of a law: its name and its actions, in order.
#[verifier::ext_equal]
pub struct LawModel {
    pub name: Seq<char>,
    pub actions: Seq<ActionModel>,
}

/// One attempted action as a handler records it: which server it targeted,
/// which channel name it tried to create, and how the attempt ended
/// (`Err` carries the message of the reported failure).
#[verifier::ext_equal]
pub struct AttemptModel {
    pub guild_id: u64,
    pub channel_name: Seq<char>,
    pub outcome: Result<(), Seq<char>>,
}

/// A typed failure from executing one action against the server.
#[derive(Debug)]
pub struct ExecutionError {
    pub message: String,
}

impl View for ExecutionError {
    type V = Seq<char>;

    open spec fn view(&self) -> Seq<char> {
        self.message@
    }
}

/// The attempt that a call `create_channel(guild_id, name)` returning `r`
/// adds to a handler's log.
pub open spec fn create_attempt(
    guild_id: u64,
    name: Seq<char>,
    r: Result<(), ExecutionError>,
) -> AttemptModel {
    AttemptModel {
        guild_id,
        channel_name: name,
        outcome: match r {
            Ok(_) => Ok(()),
            Err(e) => Err(e@),
        },
    }
}

/// The external capability a law is executed against: the ability to create
/// a named channel within a server. Every call is recorded in an append-only
/// log of attempts, so that contracts can speak about exactly which actions
/// were tried, in which order, and how each ended. The handler alone decides
/// whether an attempt succeeds.
pub trait ActionHandler {
    /// Every action attempted through this handler so far, oldest first.
    spec fn log(&self) -> Seq<AttemptModel>;

    /// Try to create a channel named `name` in the server `guild_id`.
    fn create_channel(&mut self, guild_id: u64, name: &str) -> (r: Result<(), ExecutionError>)
        ensures
            final(self).log() == old(self).log().push(create_attempt(guild_id, name@, r)),
    ;
}

/// The attempt that executing the action `a` on server `guild_id` with
/// result `r` adds to the handler's log.
pub open spec fn attempt_of(guild_id: u64, a: ActionModel, r: Result<(), ExecutionError>) -> AttemptModel {
    match a {
        ActionModel::CreateChannel { name } => create_attempt(guild_id, name, r),
    }
}

/// The deterministic single-line description of one action.
pub open spec fn action_description(a: ActionModel) -> Seq<char> {
    match a {
        ActionModel::CreateChannel { name } => "Create a channel named "@ + name,
    }
}

/// One legal action: something a law can do to the server, together with
/// a natural-language description of it.
pub trait LegalActionT {
    /// The mathematical value of this action.
    spec fn model(&self) -> ActionModel;

    /// Perform the action's one externally visible effect through `handler`.
    fn execute<H: ActionHandler>(&self, guild_id: u64, handler: &mut H) -> (r: Result<
        (),
        ExecutionError,
    >)
        ensures
            final(handler).log() == old(handler).log().push(attempt_of(guild_id, self.model(), r)),
    ;

    /// Describe the action in one deterministic human-readable line,
    /// with no side effects.
    fn natural_language(&self) -> (r: String)
        ensures
            r@ == action_description(self.model()),
    ;
}

/// The action that creates a channel with a given name.
#[derive(Debug)]
pub struct CreateChannelAction {
    pub name: String,
}

impl View for CreateChannelAction {
    type V = ActionModel;

    open spec fn view(&self) -> ActionModel {
        ActionModel::CreateChannel { name: self.name@ }
    }
}

impl CreateChannelAction {
    pub fn new(name: String) -> (r: CreateChannelAction)
        ensures
            r@ == (ActionModel::CreateChannel { name: name@ }),
    {
        CreateChannelAction { name }
    }

    /// The name of the channel this action creates.
    pub fn name(&self) -> (r: &String)
        ensures
            (match self@ {
                ActionModel::CreateChannel { name } => r@ == name,
            }),
    {
        &self.name
    }
}

impl Clone for CreateChannelAction {
    fn clone(&self) -> (r: CreateChannelAction)
        ensures
            r@ == self@,
    {
        CreateChannelAction { name: self.name.clone() }
    }
}

impl LegalActionT for CreateChannelAction {
    open spec fn model(&self) -> ActionModel {
        self@
    }

    fn execute<H: ActionHandler>(&self, guild_id: u64, handler: &mut H) -> (r: Result<
        (),
        ExecutionError,
    >) {
        handler.create_channel(guild_id, self.name.as_str())
    }

    fn natural_language(&self) -> (r: String) {
        let mut r = "Create a channel named ".to_owned();
        r.append(self.name.as_str());
        r
    }
}

/// The closed set of legal actions. Dispatch over the variants is exhaustive
/// here; a new kind of action is added as a new variant.
#[derive(Debug)]
pub enum LegalAction {
    CreateChannel(CreateChannelAction),
}

impl View for LegalAction {
    type V = ActionModel;

    open spec fn view(&self) -> ActionModel {
        match self {
            LegalAction::CreateChannel(a) => a@,
        }
    }
}

impl Clone for LegalAction {
    fn clone(&self) -> (r: LegalAction)
        ensures
            r@ == self@,
    {
        match self {
            LegalAction::CreateChannel(a) => LegalAction::CreateChannel(a.clone()),
        }
    }
}

impl LegalAction {
    /// Perform this action's effect through `handler`.
    pub fn execute<H: ActionHandler>(&self, guild_id: u64, handler: &mut H) -> (r: Result<
        (),
        ExecutionError,
    >)
        ensures
            final(handler).log() == old(handler).log().push(attempt_of(guild_id, self@, r)),
    {
        match self {
            LegalAction::CreateChannel(a) => a.execute(guild_id, handler),
        }
    }

    /// Describe this action in one deterministic human-readable line.
    pub fn natural_language(&self) -> (r: String)
        ensures
            r@ == action_description(self@),
    {
        match self {
            LegalAction::CreateChannel(a) => LegalActionT::natural_language(a),
        }
    }
}

/// The description lines that the actions `s` contribute to a law's
/// rendering: a newline before each action's description, no trailing
/// newline.
pub open spec fn actions_description(s: Seq<ActionModel>) -> Seq<char>
    decreases s.len(),
{
    if s.len() == 0 {
        Seq::empty()
    } else {
        "\n"@ + action_description(s.first()) + actions_description(s.drop_first())
    }
}

/// The full deterministic rendering of a law: a header line naming the law,
/// then each action's description on its own line, with no trailing newline.
pub open spec fn law_description(l: LawModel) -> Seq<char> {
    "The law "@ + l.name + " says to:"@ + actions_description(l.actions)
}

/// Holds when the logged attempt `at` is an attempt of the action `a` on
/// the server `guild_id`, whatever its outcome was.
pub open spec fn attempt_matches(at: AttemptModel, guild_id: u64, a: ActionModel) -> bool {
    &&& at.guild_id == guild_id
    &&& match a {
        ActionModel::CreateChannel { name } => at.channel_name == name,
    }
}

/// Holds exactly when a call of `Law::execute` on `law` and `guild_id` that
/// found the handler's log at `pre` may leave it at `post` and return `r`:
/// the actions attempted are a prefix of the law's actions in declaration
/// order, every attempt before the last succeeded, and the call returns `Ok`
/// exactly when all actions were attempted and all succeeded — on the first
/// failure it returns that failure and later actions are never attempted.
pub open spec fn fail_fast_execution(
    law: LawModel,
    guild_id: u64,
    pre: Seq<AttemptModel>,
    post: Seq<AttemptModel>,
    r: Result<(), ExecutionError>,
) -> bool {
    let attempted = post.len() - pre.len();
    &&& pre.is_prefix_of(post)
    &&& attempted <= law.actions.len()
    &&& forall|i: int|
        pre.len() <= i < post.len() ==> attempt_matches(
            #[trigger] post[i],
            guild_id,
            law.actions[i - pre.len()],
        )
    &&& forall|i: int| pre.len() <= i < post.len() - 1 ==> (#[trigger] post[i]).outcome is Ok
    &&& match r {
        Ok(_) => attempted == law.actions.len() && (forall|i: int|
            pre.len() <= i < post.len() ==> (#[trigger] post[i]).outcome is Ok),
        Err(e) => attempted >= 1 && post.last().outcome == Err::<(), Seq<char>>(e@),
    }
}

/// A law: a name and an ordered sequence of legal actions. Immutable once
/// constructed except through cloning; executing it never changes it.
#[derive(Debug)]
pub struct Law {
    pub name: String,
    pub actions: Vec<LegalAction>,
}

impl View for Law {
    type V = LawModel;

    open spec fn view(&self) -> LawModel {
        LawModel {
            name: self.name@,
            actions: self.actions@.map_values(|a: LegalAction| a@),
        }
    }
}

impl Clone for Law {
    fn clone(&self) -> (r: Law)
        ensures
            r@ == self@,
    {
        let mut actions: Vec<LegalAction> = Vec::new();
        for i in 0..self.actions.len()
            invariant
                actions@.len() == i,
                forall|j: int| 0 <= j < i ==> (#[trigger] actions@[j])@ == self.actions@[j]@,
        {
            actions.push(self.actions[i].clone());
        }
        proof {
            assert(actions@.map_values(|a: LegalAction| a@) =~= self.actions@.map_values(
                |a: LegalAction| a@,
            ));
        }
        Law { name: self.name.clone(), actions }
    }
}

impl Law {
    pub fn new(name: String, actions: Vec<LegalAction>) -> (r: Law)
        ensures
            r@ == (LawModel { name: name@, actions: actions@.map_values(|a: LegalAction| a@) }),
    {
        Law { name, actions }
    }

    /// How many actions the law holds.
    pub fn action_count(&self) -> (n: usize)
        ensures
            n == self@.actions.len(),
    {
        self.actions.len()
    }

    /// The law's `i`-th action.
    pub fn action(&self, i: usize) -> (r: &LegalAction)
        requires
            i < self@.actions.len(),
        ensures
            r@ == self@.actions[i as int],
    {
        &self.actions[i]
    }

    /// Append one more action; used while assembling a law from a parsed
    /// document.
    pub(crate) fn push_action(&mut self, a: LegalAction)
        ensures
            final(self)@.name == old(self)@.name,
            final(self)@.actions == old(self)@.actions.push(a@),
    {
        self.actions.push(a);
        proof {
            assert(self@.actions =~= old(self)@.actions.push(a@));
        }
    }

    /// Run the law's actions in declaration order against `handler`,
    /// stopping at the first failure and returning it; on success every
    /// action was attempted and succeeded. Earlier actions' effects stay
    /// applied on failure; later actions are never attempted.
    pub fn execute<H: ActionHandler>(&self, guild_id: u64, handler: &mut H) -> (r: Result<
        (),
        ExecutionError,
    >)
        ensures
            fail_fast_execution(self@, guild_id, old(handler).log(), final(handler).log(), r),
    {
        let ghost pre = handler.log();
        for i in 0..self.actions.len()
            invariant
                pre == old(handler).log(),
                pre.is_prefix_of(handler.log()),
                handler.log().len() == pre.len() + i,
                forall|j: int|
                    pre.len() <= j < handler.log().len() ==> attempt_matches(
                        #[trigger] handler.log()[j],
                        guild_id,
                        self@.actions[j - pre.len()],
                    ) && handler.log()[j].outcome is Ok,
        {
            let ghost logbefore = handler.log();
            let r = self.actions[i].execute(guild_id, handler);
            if let Err(e) = r {
                proof {
                    let post = handler.log();
                    assert(pre =~= post.subrange(0, pre.len() as int));
                    assert forall|j: int| pre.len() <= j < post.len() - 1 implies (#[trigger] post[j]).outcome is Ok by {
                        assert(post[j] == logbefore[j]);
                    }
                    assert forall|j: int|
                        pre.len() <= j < post.len() implies attempt_matches(
                        #[trigger] post[j],
                        guild_id,
                        self@.actions[j - pre.len()],
                    ) by {
                        if j < post.len() - 1 {
                            assert(post[j] == logbefore[j]);
                        }
                    }
                }
                return Err(e);
            }
            proof {
                let post = handler.log();
                assert(pre =~= post.subrange(0, pre.len() as int));
                assert forall|j: int|
                    pre.len() <= j < post.len() implies attempt_matches(
                    #[trigger] post[j],
                    guild_id,
                    self@.actions[j - pre.len()],
                ) && post[j].outcome is Ok by {
                    if j < post.len() - 1 {
                        assert(post[j] == logbefore[j]);
                    }
                }
            }
        }
        Ok(())
    }

    /// Render the law for human presentation: a header line naming the law,
    /// then each action's description on its own line, joined without a
    /// trailing newline. Deterministic, no side effects.
    pub fn natural_language(&self) -> (r: String)
        ensures
            r@ == law_description(self@),
    {
        let ghost actions = self@.actions;
        let mut r = "The law ".to_owned();
        r.append(self.name.as_str());
        r.append(" says to:");
        for i in 0..self.actions.len()
            invariant
                actions == self@.actions,
                actions.len() == self.actions@.len(),
                forall|j: int| 0 <= j < actions.len() ==> actions[j] == self.actions@[j]@,
                r@ == "The law "@ + self@.name + " says to:"@ + actions_description(
                    actions.take(i as int),
                ),
        {
            r.append("\n");
            let line = self.actions[i].natural_language();
            r.append(line.as_str());
            proof {
                lemma_actions_description_snoc(actions.take(i as int), actions[i as int]);
                assert(actions.take(i as int).push(actions[i as int]) =~= actions.take(i + 1));
            }
        }
        proof {
            assert(actions.take(actions.len() as int) =~= actions);
        }
        r
    }
}

/// Appending one action appends a newline and that action's description to
/// the joined rendering.
proof fn lemma_actions_description_snoc(s: Seq<ActionModel>, a: ActionModel)
    ensures
        actions_description(s.push(a)) == actions_description(s) + "\n"@ + action_description(a),
    decreases s.len(),
{
    if s.len() == 0 {
        assert(actions_description(s) == Seq::<char>::empty());
        assert(s.push(a).drop_first() =~= Seq::<ActionModel>::empty());
        assert(s.push(a).first() == a);
        assert(actions_description(s.push(a)) == "\n"@ + action_description(a)
            + actions_description(s.push(a).drop_first()));
        assert(actions_description(s.push(a)) =~= actions_description(s) + "\n"@
            + action_description(a));
    } else {
        lemma_actions_description_snoc(s.drop_first(), a);
        assert(s.push(a).drop_first() =~= s.drop_first().push(a));
        assert(s.push(a).first() == s.first());
        assert(actions_description(s.push(a)) == "\n"@ + action_description(s.first())
            + actions_description(s.drop_first().push(a)));
        assert(actions_description(s.push(a)) =~= actions_description(s) + "\n"@
            + action_description(a));
    }
}

/// One attempt as a [`ScriptedHandler`] records it.
#[derive(Debug)]
pub struct ScriptedAttempt {
    pub guild_id: u64,
    pub channel_name: String,
    pub error: Option<String>,
}

impl View for ScriptedAttempt {
    type V = AttemptModel;

    open spec fn view(&self) -> AttemptModel {
        AttemptModel {
            guild_id: self.guild_id,
            channel_name: self.channel_name@,
            outcome: match self.error {
                None => Ok(()),
                Some(m) => Err(m@),
            },
        }
    }
}

/// A handler that follows a script: the `i`-th action attempted through it
/// succeeds exactly when the `i`-th script entry is `true` (attempts beyond
/// the script's end succeed). It records every attempt, so callers can
/// observe exactly which actions a law execution tried.
pub struct ScriptedHandler {
    script: Vec<bool>,
    cursor: usize,
    pub attempts: Vec<ScriptedAttempt>,
}

impl ScriptedHandler {
    /// The outcomes this handler is scripted to produce, in order.
    pub closed spec fn plan(&self) -> Seq<bool> {
        self.script@
    }

    /// How many scripted outcomes have been consumed so far.
    pub closed spec fn consumed(&self) -> nat {
        self.cursor as nat
    }

    /// A fresh handler with an empty log, following `script`.
    pub fn new(script: Vec<bool>) -> (r: ScriptedHandler)
        ensures
            r.log() == Seq::<AttemptModel>::empty(),
            r.plan() == script@,
            r.consumed() == 0,
    {
        let r = ScriptedHandler { script, cursor: 0, attempts: Vec::new() };
        proof {
            assert(r.log() =~= Seq::<AttemptModel>::empty());
        }
        r
    }

    /// How many attempts were made through this handler.
    pub fn attempt_count(&self) -> (n: usize)
        ensures
            n == self.log().len(),
    {
        self.attempts.len()
    }
}

impl ActionHandler for ScriptedHandler {
    closed spec fn log(&self) -> Seq<AttemptModel> {
        self.attempts@.map_values(|a: ScriptedAttempt| a@)
    }

    fn create_channel(&mut self, guild_id: u64, name: &str) -> (r: Result<(), ExecutionError>)
        ensures
            final(self).plan() == old(self).plan(),
            final(self).consumed() == (if old(self).consumed() < old(self).plan().len() {
                old(self).consumed() + 1
            } else {
                old(self).consumed()
            }),
            r is Ok <==> (old(self).consumed() >= old(self).plan().len()
                || old(self).plan()[old(self).consumed() as int]),
    {
        let ok = if self.cursor < self.script.len() {
            self.script[self.cursor]
        } else {
            true
        };
        if self.cursor < self.script.len() {
            self.cursor = self.cursor + 1;
        }
        let (r, error): (Result<(), ExecutionError>, Option<String>) = if ok {
            (Ok(()), None)
        } else {
            let message = "the handler refused to create the channel".to_owned();
            (Err(ExecutionError { message: message.clone() }), Some(message))
        };
        self.attempts.push(ScriptedAttempt { guild_id, channel_name: name.to_owned(), error });
        proof {
            assert(self.log() =~= old(self).log().push(create_attempt(guild_id, name@, r)));
        }
        r
    }
}

} // verus!
