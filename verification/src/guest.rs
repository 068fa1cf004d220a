//! What the guest decides around the calls that read, convert and validate its input.

use vstd::prelude::*;

verus! {

/// The stages a payload passes on its way to being accepted, in order.
#[derive(Debug, Clone, Copy, PartialEq, Eq, Structural)]
pub enum Stage {
    /// The chain configuration is held against the payload.
    ValidateChainConfig,
    /// The payload is converted into what validation takes.
    ConvertInput,
    /// The payload is validated.
    RunValidation,
}

/// Where a payload stands once a stage is over.
#[derive(Debug, Clone, Copy, PartialEq, Eq, Structural)]
pub enum Progress {
    /// The next stage is to run.
    Next(Stage),
    /// Every stage passed.
    Accepted,
    /// The stage failed, and none after it runs.
    Rejected,
}

/// What the guest reports of its input: nothing it could read, or whether the payload it read
/// validates, with the root that names it and the configuration it was validated under.
#[derive(Debug)]
pub enum GuestOutput<C> {
    /// The input could not be read, so the report is the default one.
    Unreadable,
    /// The payload was read.
    Validated {
        /// The root that names the payload.
        new_payload_request_root: [u8; 32],
        /// Whether the payload validates.
        successful_validation: bool,
        /// The configuration the payload was validated under.
        chain_config: C,
    },
}

/// The stages that pass before one runs.
pub open spec fn passed_before(stage: Stage) -> nat {
    match stage {
        Stage::ValidateChainConfig => 0,
        Stage::ConvertInput => 1,
        Stage::RunValidation => 2,
    }
}

/// Where a payload stands once a stage is over.
pub open spec fn progress_after(stage: Stage, passed: bool) -> Progress {
    if !passed {
        Progress::Rejected
    } else {
        match stage {
            Stage::ValidateChainConfig => Progress::Next(Stage::ConvertInput),
            Stage::ConvertInput => Progress::Next(Stage::RunValidation),
            Stage::RunValidation => Progress::Accepted,
        }
    }
}

/// Whether a payload that is at `stage` ends up accepted, given which stages pass.
pub open spec fn is_accepted(stage: Stage, passes: spec_fn(Stage) -> bool) -> bool
    decreases 2 - passed_before(stage),
{
    match progress_after(stage, passes(stage)) {
        Progress::Next(next) => is_accepted(next, passes),
        Progress::Accepted => true,
        Progress::Rejected => false,
    }
}

/// A payload is accepted exactly where every one of the three stages passes.
pub proof fn law_accepted_where_every_stage_passes(passes: spec_fn(Stage) -> bool)
    ensures
        is_accepted(Stage::ValidateChainConfig, passes) <==> passes(Stage::ValidateChainConfig)
            && passes(Stage::ConvertInput) && passes(Stage::RunValidation),
{
    reveal_with_fuel(is_accepted, 3);
}

/// The configuration is looked at first, then the conversion and then the validation, each only where
/// the one before it passed, and a stage that fails ends it.
pub proof fn law_stages_run_in_order()
    ensures
        progress_after(Stage::ValidateChainConfig, true) == Progress::Next(Stage::ConvertInput),
        progress_after(Stage::ConvertInput, true) == Progress::Next(Stage::RunValidation),
        progress_after(Stage::RunValidation, true) == Progress::Accepted,
        forall|stage: Stage| #[trigger] progress_after(stage, false) == Progress::Rejected,
{
}

impl Stage {
    /// Where a payload stands once this stage is over.
    pub fn after(&self, passed: bool) -> (progress: Progress)
        ensures
            progress == progress_after(*self, passed),
    {
        if !passed {
            return Progress::Rejected;
        }
        match self {
            Stage::ValidateChainConfig => Progress::Next(Stage::ConvertInput),
            Stage::ConvertInput => Progress::Next(Stage::RunValidation),
            Stage::RunValidation => Progress::Accepted,
        }
    }

    /// What is printed ahead of the error this stage fails with. A configuration the payload does
    /// not match is not printed.
    pub fn failure_notice(&self) -> (notice: Option<&'static str>)
        ensures
            match self {
                Stage::ValidateChainConfig => notice is None,
                Stage::ConvertInput => notice matches Some(text) && text@
                    == "Input conversion failed: "@,
                Stage::RunValidation => notice matches Some(text) && text@ == "Validation failed: "@,
            },
    {
        match self {
            Stage::ValidateChainConfig => None,
            Stage::ConvertInput => Some("Input conversion failed: "),
            Stage::RunValidation => Some("Validation failed: "),
        }
    }
}

/// What the guest reports, given the root and the configuration it read, if any, and whether the
/// payload validates.
pub fn guest_output<C>(read: Option<([u8; 32], C)>, successful_validation: bool) -> (output:
    GuestOutput<C>)
    ensures
        match read {
            None => output is Unreadable,
            Some((root, config)) => output == (GuestOutput::Validated {
                new_payload_request_root: root,
                successful_validation,
                chain_config: config,
            }),
        },
{
    match read {
        None => GuestOutput::Unreadable,
        Some((new_payload_request_root, chain_config)) => GuestOutput::Validated {
            new_payload_request_root,
            successful_validation,
            chain_config,
        },
    }
}

} // verus!
