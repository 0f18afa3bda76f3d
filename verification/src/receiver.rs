//! The receiving end of the signals: it tells a backend of each, and turns
//! what the backend finds into the report of the build.

use crate::backend::{BuildInfo, BuildListenerBackend, BuildListenerError};
use crate::data::ArtifactGroup;
use crate::duration::NodeDuration;
use crate::key::{ActionKey, NodeKey, TransitiveSetProjectionKey};
use crate::model::{NodeRecord, VisibilityRecord};
use crate::report::{is_report_of, report, BuildGraphExecutionInfo};
use crate::signal::{
    action_deps, analysis_deps, group_keys, set_deps, signal_record, signal_target,
    ActionExecutionSignal, ActionRedirectionSignal, AnalysisSignal, BuildSignal,
    TopLevelTargetSignal, TransitiveSetComputationSignal,
};
use vstd::prelude::*;

verus! {

/// What a backend has been told: the nodes and the top-level targets.
pub type Told = (Seq<NodeRecord>, Seq<VisibilityRecord>);

/// What a backend has been told after one more signal, or `None` where the
/// signal reports a node for which the backend has no room.
pub open spec fn told_after<T: BuildListenerBackend>(told: Told, signal: BuildSignal) -> Option<
    Told,
> {
    match signal_record(signal) {
        Some(record) => if T::accepts(told.0, record.data.duration, record.deps) {
            Some((told.0.push(record), told.1))
        } else {
            None
        },
        None => match signal_target(signal) {
            Some(target) => Some((told.0, told.1.push(target))),
            None => Some(told),
        },
    }
}

/// What a backend has been told after the signals up to the first
/// `BuildFinished`, or `None` where it ran out of room before.  The signals
/// behind the first `BuildFinished` are dropped.
pub open spec fn told_after_all<T: BuildListenerBackend>(told: Told, signals: Seq<BuildSignal>) -> Option<
    Told,
>
    decreases signals.len(),
{
    if signals.len() == 0 || signals.first() is BuildFinished {
        Some(told)
    } else {
        match told_after::<T>(told, signals.first()) {
            Some(next) => told_after_all::<T>(next, signals.drop_first()),
            None => None,
        }
    }
}

/// What `finish` of the receiver may return where the backend was told of
/// `told`: the report of what the backend found, or its error.
pub open spec fn reports<T: BuildListenerBackend>(
    told: Told,
    outcome: Result<BuildGraphExecutionInfo, BuildListenerError>,
) -> bool {
    exists|found: Result<BuildInfo, BuildListenerError>| #[trigger]
        T::finishes_with(told.0, told.1, found) && match found {
            Ok(build) => outcome matches Ok(info) && is_report_of(info, build),
            Err(error) => outcome == Err::<BuildGraphExecutionInfo, BuildListenerError>(error),
        }
}

/// `BuildFinished` ends the build once: whatever is sent behind the first
/// `BuildFinished` changes nothing of what the backend is told.
pub proof fn lemma_build_finished_is_final<T: BuildListenerBackend>(
    told: Told,
    before: Seq<BuildSignal>,
    behind: Seq<BuildSignal>,
)
    ensures
        told_after_all::<T>(told, before.push(BuildSignal::BuildFinished) + behind)
            == told_after_all::<T>(told, before.push(BuildSignal::BuildFinished)),
    decreases before.len(),
{
    let short = before.push(BuildSignal::BuildFinished);
    let long = short + behind;
    assert(long.first() == short.first());
    if before.len() > 0 && !(before.first() is BuildFinished) {
        match told_after::<T>(told, before.first()) {
            Some(next) => {
                lemma_build_finished_is_final::<T>(next, before.drop_first(), behind);
                assert(short.drop_first() == before.drop_first().push(BuildSignal::BuildFinished));
                assert(long.drop_first() == before.drop_first().push(BuildSignal::BuildFinished)
                    + behind);
            },
            None => {},
        }
    }
}

/// The receiver of the signals of one build.
pub struct BuildSignalReceiver<T> {
    backend: T,
}

/// The nodes that the inputs stand for, in the order of the inputs.
fn keys_of_groups(groups: &Vec<ArtifactGroup>) -> (keys: Vec<NodeKey>)
    ensures
        keys@ == group_keys(groups@),
{
    let mut keys: Vec<NodeKey> = Vec::new();
    let mut i: usize = 0;
    assert(groups@.take(0) == Seq::<ArtifactGroup>::empty());
    while i < groups.len()
        invariant
            i <= groups.len(),
            keys@ == group_keys(groups@.take(i as int)),
        decreases groups.len() - i,
    {
        assert(groups@.take(i + 1).drop_last() == groups@.take(i as int));
        match groups[i] {
            ArtifactGroup::Artifact(artifact) => {
                match artifact.action_key() {
                    Some(key) => {
                        keys.push(NodeKey::ActionKey(key));
                    },
                    None => {},
                }
            },
            ArtifactGroup::TransitiveSetProjection(key) => {
                keys.push(NodeKey::TransitiveSetProjection(key));
            },
        }
        i += 1;
    }
    assert(groups@.take(groups.len() as int) == groups@);
    keys
}

impl<T: BuildListenerBackend> BuildSignalReceiver<T> {
    /// The backend that the receiver tells of the signals.
    pub closed spec fn backend(&self) -> T {
        self.backend
    }

    /// What the backend of the receiver has been told.
    pub open spec fn told(&self) -> Told {
        (self.backend().recorded(), self.backend().visibility())
    }

    /// The receiver is in a valid state.
    pub open spec fn wf(&self) -> bool {
        self.backend().wf()
    }

    /// The step from `self` to `after` is that of one signal: where the
    /// backend has room it is told of what the signal reports, and else
    /// nothing changes and the step fails.
    pub open spec fn steps_to(&self, after: &Self, signal: BuildSignal, failed: bool) -> bool {
        match told_after::<T>(self.told(), signal) {
            Some(told) => !failed && after.wf() && after.told() == told,
            None => failed && *after == *self,
        }
    }

    /// A receiver in front of `backend`.
    pub fn new(backend: T) -> (receiver: Self)
        requires
            backend.wf(),
        ensures
            receiver.wf(),
            receiver.backend() == backend,
    {
        BuildSignalReceiver { backend }
    }

    /// Tells the backend of the execution of an action.  Its dependencies
    /// are the nodes of its inputs and the analysis of the target that owns
    /// it.
    pub fn process_action(&mut self, execution: ActionExecutionSignal) -> (done: Result<
        (),
        BuildListenerError,
    >)
        requires
            old(self).wf(),
        ensures
            old(self).steps_to(final(self), BuildSignal::ActionExecution(execution), done is Err),
            done matches Err(error) ==> error == BuildListenerError::LimitExceeded,
    {
        let mut dep_keys = keys_of_groups(execution.action.inputs());
        match execution.action.owner().unpack_target_label() {
            Some(label) => {
                dep_keys.push(NodeKey::Analysis(label));
            },
            None => {},
        }
        assert(dep_keys@ == action_deps(*execution.action));
        if !self.backend.accepts_node(&execution.duration, &dep_keys) {
            return Err(BuildListenerError::LimitExceeded);
        }
        let key = NodeKey::ActionKey(execution.action.key());
        self.backend.process_node(
            key,
            Some(execution.action),
            execution.duration,
            dep_keys,
            execution.span_id,
        );
        Ok(())
    }

    /// Tells the backend of a redirection: a node without a duration, whose
    /// one dependency is the action that is run in its place.
    pub fn process_action_redirection(&mut self, redirection: ActionRedirectionSignal) -> (done:
        Result<(), BuildListenerError>)
        requires
            old(self).wf(),
        ensures
            old(self).steps_to(final(self), BuildSignal::ActionRedirection(redirection), done is Err),
            done matches Err(error) ==> error == BuildListenerError::LimitExceeded,
    {
        let mut dep_keys: Vec<NodeKey> = Vec::new();
        dep_keys.push(NodeKey::ActionKey(redirection.dest));
        assert(dep_keys@ == seq![NodeKey::ActionKey(redirection.dest)]);
        let duration = NodeDuration::zero();
        if !self.backend.accepts_node(&duration, &dep_keys) {
            return Err(BuildListenerError::LimitExceeded);
        }
        self.backend.process_node(NodeKey::ActionKey(redirection.key), None, duration, dep_keys, None);
        Ok(())
    }

    /// Tells the backend of a transitive-set projection: a node without a
    /// duration, which depends on the actions of its artifacts and on the
    /// projections that it holds.
    pub fn process_transitive_set_computation(
        &mut self,
        set: TransitiveSetComputationSignal,
    ) -> (done: Result<(), BuildListenerError>)
        requires
            old(self).wf(),
        ensures
            old(self).steps_to(final(self), BuildSignal::TransitiveSetComputation(set), done is Err),
            done matches Err(error) ==> error == BuildListenerError::LimitExceeded,
    {
        let ghost artifacts = set.artifacts@.map_values(|key: ActionKey| NodeKey::ActionKey(key));
        let ghost sets = set.set_deps@.map_values(
            |key: TransitiveSetProjectionKey| NodeKey::TransitiveSetProjection(key),
        );
        let mut dep_keys: Vec<NodeKey> = Vec::new();
        let mut i: usize = 0;
        while i < set.artifacts.len()
            invariant
                i <= set.artifacts.len(),
                artifacts == set.artifacts@.map_values(|key: ActionKey| NodeKey::ActionKey(key)),
                dep_keys@ == artifacts.take(i as int),
            decreases set.artifacts.len() - i,
        {
            dep_keys.push(NodeKey::ActionKey(set.artifacts[i]));
            i += 1;
        }
        let mut j: usize = 0;
        while j < set.set_deps.len()
            invariant
                j <= set.set_deps.len(),
                sets == set.set_deps@.map_values(
                    |key: TransitiveSetProjectionKey| NodeKey::TransitiveSetProjection(key),
                ),
                dep_keys@ == artifacts + sets.take(j as int),
            decreases set.set_deps.len() - j,
        {
            dep_keys.push(NodeKey::TransitiveSetProjection(set.set_deps[j]));
            j += 1;
        }
        assert(dep_keys@ == set_deps(set));
        let duration = NodeDuration::zero();
        if !self.backend.accepts_node(&duration, &dep_keys) {
            return Err(BuildListenerError::LimitExceeded);
        }
        self.backend.process_node(
            NodeKey::TransitiveSetProjection(set.key),
            None,
            duration,
            dep_keys,
            None,
        );
        Ok(())
    }

    /// Tells the backend of an analysis.  Its dependencies are the analyses
    /// of the direct dependencies of the target.
    pub fn process_analysis(&mut self, analysis: AnalysisSignal) -> (done: Result<
        (),
        BuildListenerError,
    >)
        requires
            old(self).wf(),
        ensures
            old(self).steps_to(final(self), BuildSignal::Analysis(analysis), done is Err),
            done matches Err(error) ==> error == BuildListenerError::LimitExceeded,
    {
        let ghost deps = analysis_deps(analysis.node);
        let mut dep_keys: Vec<NodeKey> = Vec::new();
        let mut i: usize = 0;
        while i < analysis.node.deps.len()
            invariant
                i <= analysis.node.deps.len(),
                deps == analysis_deps(analysis.node),
                dep_keys@ == deps.take(i as int),
            decreases analysis.node.deps.len() - i,
        {
            dep_keys.push(NodeKey::Analysis(analysis.node.deps[i]));
            i += 1;
        }
        assert(dep_keys@ == deps);
        if !self.backend.accepts_node(&analysis.duration, &dep_keys) {
            return Err(BuildListenerError::LimitExceeded);
        }
        self.backend.process_node(
            NodeKey::Analysis(analysis.label),
            None,
            analysis.duration,
            dep_keys,
            analysis.span_id,
        );
        Ok(())
    }

    /// Tells the backend that the analysis of a top-level target makes the
    /// nodes of these artifacts visible.
    pub fn process_top_level_target(&mut self, top_level: TopLevelTargetSignal) -> (done: Result<
        (),
        BuildListenerError,
    >)
        requires
            old(self).wf(),
        ensures
            done is Ok,
            old(self).steps_to(final(self), BuildSignal::TopLevelTarget(top_level), false),
    {
        let artifact_keys = keys_of_groups(&top_level.artifacts);
        self.backend.process_top_level_target(NodeKey::Analysis(top_level.label), artifact_keys);
        Ok(())
    }

    /// Takes one signal.  Returns whether it was `BuildFinished`, after
    /// which no signal is to be taken.
    pub fn handle(&mut self, signal: BuildSignal) -> (finished: Result<bool, BuildListenerError>)
        requires
            old(self).wf(),
        ensures
            old(self).steps_to(final(self), signal, finished is Err),
            finished matches Ok(last) ==> last == (signal is BuildFinished),
            finished matches Err(error) ==> error == BuildListenerError::LimitExceeded,
    {
        let done = match signal {
            BuildSignal::ActionExecution(execution) => self.process_action(execution),
            BuildSignal::TransitiveSetComputation(set) => self.process_transitive_set_computation(
                set,
            ),
            BuildSignal::ActionRedirection(redirection) => self.process_action_redirection(
                redirection,
            ),
            BuildSignal::Analysis(analysis) => self.process_analysis(analysis),
            BuildSignal::TopLevelTarget(top_level) => self.process_top_level_target(top_level),
            BuildSignal::BuildFinished => {
                return Ok(true);
            },
        };
        match done {
            Ok(()) => Ok(false),
            Err(error) => Err(error),
        }
    }

    /// Takes the signals of a build in order, up to the first `BuildFinished`
    /// or to the last of them, and reports the build.  Signals behind the
    /// first `BuildFinished` are dropped.
    pub fn run_and_log(self, signals: Vec<BuildSignal>) -> (outcome: Result<
        BuildGraphExecutionInfo,
        BuildListenerError,
    >)
        requires
            self.wf(),
        ensures
            match told_after_all::<T>(self.told(), signals@) {
                Some(told) => reports::<T>(told, outcome),
                None => outcome == Err::<BuildGraphExecutionInfo, BuildListenerError>(
                    BuildListenerError::LimitExceeded,
                ),
            },
    {
        let ghost start = self.told();
        let ghost all = signals@;
        let mut receiver = self;
        let mut finished = false;
        let mut failure: Option<BuildListenerError> = None;
        assert(all.skip(0) == all);
        for signal in it: signals
            invariant
                it.seq() == all,
                receiver.wf(),
                failure is None ==> told_after_all::<T>(start, all) == told_after_all::<T>(
                    receiver.told(),
                    if finished { Seq::empty() } else { all.skip(it.index() as int) },
                ),
                failure is Some ==> told_after_all::<T>(start, all) is None && failure
                    == Some(BuildListenerError::LimitExceeded),
        {
            proof {
                let rest = all.skip(it.index() as int);
                assert(rest.first() == signal);
                assert(rest.drop_first() == all.skip(it.index() + 1));
            }
            if !finished && failure.is_none() {
                match receiver.handle(signal) {
                    Ok(last) => {
                        finished = last;
                    },
                    Err(error) => {
                        failure = Some(error);
                    },
                }
            }
        }
        match failure {
            Some(error) => Err(error),
            None => receiver.finish(),
        }
    }

    /// Ends the build: the backend names the critical path, and the receiver
    /// turns it into the report.
    pub fn finish(self) -> (outcome: Result<BuildGraphExecutionInfo, BuildListenerError>)
        requires
            self.wf(),
        ensures
            reports::<T>(self.told(), outcome),
    {
        let ghost told = self.told();
        let found = self.backend.finish();
        match found {
            Ok(build) => {
                let info = report(&build);
                proof {
                    let found = Ok::<BuildInfo, BuildListenerError>(build);
                    assert(T::finishes_with(told.0, told.1, found));
                }
                Ok(info)
            },
            Err(error) => {
                proof {
                    let found = Err::<BuildInfo, BuildListenerError>(error);
                    assert(T::finishes_with(told.0, told.1, found));
                }
                Err(error)
            },
        }
    }
}

} // verus!
