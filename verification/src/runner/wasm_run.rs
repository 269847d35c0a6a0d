//! The stages in which a component is run, with what is logged and reported.
use vstd::prelude::*;
use vstd::string::*;

verus! {

/// A stage of running a component.
#[derive(Debug, Clone, Copy, PartialEq, Eq, Structural)]
pub enum WasmStage {
    /// Adding the WASI interfaces to the linker.
    LinkWasi,
    /// Adding the HTTP interfaces to the linker.
    LinkHttp,
    /// Resolving the imports of the component.
    PreInstantiate,
    /// Finding the exports of a command.
    PrepareCommand,
    /// Instantiating the component.
    Instantiate,
    /// Calling `wasi:cli/run`.
    CallRun,
}

/// What came of a stage.
#[derive(Debug)]
pub enum StageOutcome {
    /// It succeeded.
    Succeeded,
    /// It failed for this cause.
    Failed(String),
    /// The component was called and reported failure.
    Reported,
}

/// How a run goes on.
#[derive(Debug, PartialEq, Eq)]
pub enum RunStep {
    /// With another stage.
    Next(WasmStage),
    /// Not at all: the component has run to its end.
    Completed,
    /// Not at all: it has failed with this error.
    Failed(String),
}

impl WasmStage {
    /// The stage that follows; none where the run is complete.
    pub open spec fn following(self) -> Option<WasmStage> {
        match self {
            WasmStage::LinkWasi => Some(WasmStage::LinkHttp),
            WasmStage::LinkHttp => Some(WasmStage::PreInstantiate),
            WasmStage::PreInstantiate => Some(WasmStage::PrepareCommand),
            WasmStage::PrepareCommand => Some(WasmStage::Instantiate),
            WasmStage::Instantiate => Some(WasmStage::CallRun),
            WasmStage::CallRun => None,
        }
    }

    /// What is logged when a stage has succeeded.
    pub open spec fn note(self) -> Seq<char> {
        match self {
            WasmStage::LinkHttp => "component instantiating\n"@,
            WasmStage::Instantiate => "calling wasi:cli/run\n"@,
            WasmStage::CallRun => "run returned ok\n"@,
            _ => Seq::empty(),
        }
    }

    /// What a failure in a stage is called.
    pub open spec fn label(self) -> Seq<char> {
        match self {
            WasmStage::LinkWasi => "add wasi to linker: "@,
            WasmStage::LinkHttp => "add http to linker: "@,
            WasmStage::PreInstantiate => "instantiate_pre: "@,
            WasmStage::PrepareCommand => "CommandPre::new: "@,
            WasmStage::Instantiate => "instantiate: "@,
            WasmStage::CallRun => "call_run: "@,
        }
    }

    /// What is logged from a stage on, up to the end of a run that succeeds.
    pub open spec fn notes(self) -> Seq<char>
        decreases self.stages_left(),
    {
        match self.following() {
            Some(next) => self.note() + next.notes(),
            None => self.note(),
        }
    }

    /// How many stages follow.
    pub open spec fn stages_left(self) -> nat {
        match self {
            WasmStage::LinkWasi => 5,
            WasmStage::LinkHttp => 4,
            WasmStage::PreInstantiate => 3,
            WasmStage::PrepareCommand => 2,
            WasmStage::Instantiate => 1,
            WasmStage::CallRun => 0,
        }
    }

    fn log_note(self, log: &mut String)
        ensures
            final(log)@ == old(log)@ + self.note(),
    {
        let ghost before = log@;
        match self {
            WasmStage::LinkHttp => log.append("component instantiating\n"),
            WasmStage::Instantiate => log.append("calling wasi:cli/run\n"),
            WasmStage::CallRun => log.append("run returned ok\n"),
            _ => {},
        }
        assert(log@ =~= before + self.note());
    }

    fn next_stage(self) -> (next: Option<WasmStage>)
        ensures
            next == self.following(),
    {
        match self {
            WasmStage::LinkWasi => Some(WasmStage::LinkHttp),
            WasmStage::LinkHttp => Some(WasmStage::PreInstantiate),
            WasmStage::PreInstantiate => Some(WasmStage::PrepareCommand),
            WasmStage::PrepareCommand => Some(WasmStage::Instantiate),
            WasmStage::Instantiate => Some(WasmStage::CallRun),
            WasmStage::CallRun => None,
        }
    }

    fn failure(self, cause: &str) -> (error: String)
        ensures
            error@ == self.label() + cause@,
    {
        let mut error = match self {
            WasmStage::LinkWasi => "add wasi to linker: ".to_owned(),
            WasmStage::LinkHttp => "add http to linker: ".to_owned(),
            WasmStage::PreInstantiate => "instantiate_pre: ".to_owned(),
            WasmStage::PrepareCommand => "CommandPre::new: ".to_owned(),
            WasmStage::Instantiate => "instantiate: ".to_owned(),
            WasmStage::CallRun => "call_run: ".to_owned(),
        };
        error.append(cause);
        error
    }

    /// Goes on from a stage. A stage that succeeds is noted in the log and leads
    /// to the next, or to the end of the run; one that fails ends it with an error
    /// that names the stage; and a component that reports failure when it is
    /// called ends it too.
    pub fn advance(self, outcome: StageOutcome, log: &mut String) -> (r: RunStep)
        requires
            outcome is Reported ==> self == WasmStage::CallRun,
        ensures
            match outcome {
                StageOutcome::Succeeded => {
                    &&& final(log)@ == old(log)@ + self.note()
                    &&& r == match self.following() {
                        Some(next) => RunStep::Next(next),
                        None => RunStep::Completed,
                    }
                },
                StageOutcome::Failed(cause) => {
                    &&& final(log)@ == old(log)@
                    &&& r matches RunStep::Failed(error)
                    &&& error@ == self.label() + cause@
                },
                StageOutcome::Reported => {
                    &&& final(log)@ == old(log)@
                    &&& r matches RunStep::Failed(error)
                    &&& error@ == "wasm component returned error from wasi:cli/run"@
                },
            },
    {
        match outcome {
            StageOutcome::Succeeded => {
                self.log_note(log);
                match self.next_stage() {
                    Some(next) => RunStep::Next(next),
                    None => RunStep::Completed,
                }
            },
            StageOutcome::Failed(cause) => RunStep::Failed(self.failure(cause.as_str())),
            StageOutcome::Reported => RunStep::Failed(
                "wasm component returned error from wasi:cli/run".to_owned(),
            ),
        }
    }
}

/// A run that succeeds passes through all stages and logs that the component is
/// instantiated, then that it is called, then that it returned, and nothing else.
pub proof fn law_notes_of_a_run()
    ensures
        WasmStage::LinkWasi.notes() == "component instantiating\n"@ + ("calling wasi:cli/run\n"@
            + "run returned ok\n"@),
{
    reveal_with_fuel(WasmStage::notes, 6);
    assert(WasmStage::Instantiate.notes() =~= "calling wasi:cli/run\n"@ + "run returned ok\n"@);
    assert(WasmStage::PrepareCommand.notes() =~= WasmStage::Instantiate.notes());
    assert(WasmStage::PreInstantiate.notes() =~= WasmStage::PrepareCommand.notes());
    assert(WasmStage::LinkWasi.notes() =~= WasmStage::LinkHttp.notes());
}

/// The stages in their order, and what each is called where it fails. Each leads to
/// the one after it, and the last to the end of the run.
pub proof fn law_stages_in_order(i: int)
    requires
        0 <= i < 6,
    ensures
        ({
            let stages = seq![
                WasmStage::LinkWasi,
                WasmStage::LinkHttp,
                WasmStage::PreInstantiate,
                WasmStage::PrepareCommand,
                WasmStage::Instantiate,
                WasmStage::CallRun,
            ];
            let labels = seq![
                "add wasi to linker: "@,
                "add http to linker: "@,
                "instantiate_pre: "@,
                "CommandPre::new: "@,
                "instantiate: "@,
                "call_run: "@,
            ];
            &&& i < 5 ==> stages[i].following() == Some(stages[i + 1])
            &&& i == 5 ==> stages[i].following() is None
            &&& stages[i].label() == labels[i]
        }),
{
}

/// Something is logged where the HTTP interfaces have been added, where the
/// component has been instantiated and where it has returned, and nowhere else.
pub proof fn law_which_stages_are_noted(stage: WasmStage)
    ensures
        stage.note() == "component instantiating\n"@ <==> stage == WasmStage::LinkHttp,
        stage.note() == "calling wasi:cli/run\n"@ <==> stage == WasmStage::Instantiate,
        stage.note() == "run returned ok\n"@ <==> stage == WasmStage::CallRun,
        stage.note().len() == 0 <==> stage != WasmStage::LinkHttp && stage != WasmStage::Instantiate
            && stage != WasmStage::CallRun,
{
    reveal_strlit("component instantiating\n");
    reveal_strlit("calling wasi:cli/run\n");
    reveal_strlit("run returned ok\n");
    let instantiating = "component instantiating\n"@;
    let calling = "calling wasi:cli/run\n"@;
    let returned = "run returned ok\n"@;
    assert(instantiating.len() == 24 && calling.len() == 21 && returned.len() == 16);
}

} // verus!
