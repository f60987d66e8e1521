//! Running compiler commands on a remote service.
use vstd::prelude::*;

use crate::config::{
    ConfigView, Host, Invocation, RemoteBuildConfig, RemoteExecutorContext,
};
use crate::digits::{signed_decimal, signed_decimal_text};
use crate::disk::{Disk, FsNode};
use crate::endpoint::{check_endpoint, endpoint_fault, invalid_endpoint};
use crate::error::{fail, failure, Error, ErrorView};
use crate::execution::{
    plan_of, started, Execution, RemoteResult, RemoteResultView, Request,
};
use crate::messages::pair_texts;
use crate::metadata::{metadata_of, request_metadata};
use crate::prepare::{action_of, assembled, complete, sealed, PreparedCommand};
use crate::tables::is_table;
use crate::text::plus;
use crate::transfer::{refusal, status_message, status_text};

verus! {

/// How a remote execution ended for the command.
#[derive(Debug)]
pub enum Conclusion {
    /// The command succeeded.
    Success,
    /// The remote service reported a failure.
    Refused(Error),
    /// The command failed, with this exit code, which is also there in words.
    ExitCode(i32, String),
}

/// The content of a [`Conclusion`].
pub enum ConclusionView {
    Success,
    Refused(ErrorView),
    ExitCode(i32, Seq<char>),
}

impl View for Conclusion {
    type V = ConclusionView;

    open spec fn view(&self) -> ConclusionView {
        match self {
            Conclusion::Success => ConclusionView::Success,
            Conclusion::Refused(e) => ConclusionView::Refused(e@),
            Conclusion::ExitCode(code, text) => ConclusionView::ExitCode(*code, text@),
        }
    }
}

/// How a remote execution ended for the command: a failure of the service goes before the exit
/// code.
pub open spec fn conclusion_of(r: RemoteResultView) -> ConclusionView {
    match refusal(r.status) {
        Some(status) => ConclusionView::Refused(
            failure(status_text("remote execution failed with status "@, status)),
        ),
        None => if r.exit_code == 0 {
            ConclusionView::Success
        } else {
            ConclusionView::ExitCode(
                r.exit_code,
                "exit code "@ + signed_decimal(r.exit_code as int),
            )
        },
    }
}

/// How a remote execution ended for the command.
pub fn conclude(result: &RemoteResult) -> (r: Conclusion)
    ensures
        r@ == conclusion_of(result@),
{
    if let Some(status) = &result.status {
        if status.code != 0 {
            let message = status_message("remote execution failed with status ", status);
            return Conclusion::Refused(fail(message.as_str()));
        }
    }
    if result.exit_code == 0 {
        Conclusion::Success
    } else {
        let code = signed_decimal_text(result.exit_code as i64);
        Conclusion::ExitCode(result.exit_code, plus("exit code ", code.as_str()))
    }
}

/// What is done after an attempt to run a command remotely.
#[derive(Debug, Clone, Copy, PartialEq, Eq)]
pub enum AfterRemote {
    /// Nothing: the command succeeded.
    Done,
    /// The command is run here.
    RunLocally,
    /// The failure is reported.
    Fail,
}

/// Runs compiler commands on a remote service.
#[derive(Debug)]
pub struct RemoteExecutor {
    config: RemoteBuildConfig,
}

impl View for RemoteExecutor {
    type V = ConfigView;

    closed spec fn view(&self) -> ConfigView {
        self.config@
    }
}

impl RemoteExecutor {
    /// An executor with these settings.
    pub fn new(config: RemoteBuildConfig) -> (r: RemoteExecutor)
        ensures
            r@ == config@,
    {
        RemoteExecutor { config }
    }

    /// The settings.
    pub fn config(&self) -> (r: &RemoteBuildConfig)
        ensures
            r@ == self@,
    {
        &self.config
    }

    /// The build that a command belongs to; without one it cannot be run remotely.
    pub fn require_context<'a>(&self, context: Option<&'a RemoteExecutorContext>) -> (r: Result<
        &'a RemoteExecutorContext,
        Error,
    >)
        ensures
            match (r, context) {
                (Ok(x), Some(y)) => x == y,
                (Err(e), None) => e@ == failure("remote execution requires an executor context"@),
                _ => false,
            },
    {
        match context {
            Some(context) => Ok(context),
            None => Err(fail("remote execution requires an executor context")),
        }
    }

    /// Makes a command ready to be carried out remotely.
    pub fn prepare(
        &self,
        context: &RemoteExecutorContext,
        cmd: &Invocation,
        host: &Host,
        disk: &Disk,
        package: &FsNode,
    ) -> (r: Result<PreparedCommand, Error>)
        ensures
            match (r, assembled(context@, cmd@, self@, host@, disk@, package.model())) {
                (Ok(p), Ok(a)) => p@ == sealed(a, self@.remote_cache) && complete(
                    p@,
                    action_of(a, self@.remote_cache),
                    a.command,
                    a.mapping.tree,
                ),
                (Err(e), Err(f)) => e@ == f,
                _ => false,
            },
    {
        PreparedCommand::new(context, cmd, &self.config, host, disk, package)
    }

    /// Whether the settings say where the service is.
    pub fn check_endpoint(&self) -> (r: Result<(), Error>)
        ensures
            match (r, endpoint_fault(self@.endpoint)) {
                (Ok(_), None) => true,
                (Err(e), Some(fault)) => e@ == invalid_endpoint("invalid URI"@, fault),
                _ => false,
            },
    {
        check_endpoint(&self.config)
    }

    /// What every request carries beside its message.
    pub fn request(&self) -> (r: Result<Vec<(String, String)>, Error>)
        ensures
            match (r, metadata_of(self@)) {
                (Ok(table), Ok(t)) => pair_texts(table@) == t && is_table(t),
                (Err(e), Err(f)) => e@ == f,
                _ => false,
            },
    {
        request_metadata(&self.config)
    }

    /// Starts the execution of a prepared command, and says what is to be done first.
    pub fn execute(&self, prepared: PreparedCommand) -> (r: (Execution, Request))
        ensures
            r.0@.plan == plan_of(self@, prepared@),
            (r.0@.stage, r.1@) == started(self@, prepared@),
    {
        Execution::start(&self.config, prepared)
    }

    /// What is done after an attempt to run a command remotely.
    pub fn after_remote(&self, succeeded: bool) -> (r: AfterRemote)
        ensures
            r == (if succeeded {
                AfterRemote::Done
            } else if self@.fallback_local {
                AfterRemote::RunLocally
            } else {
                AfterRemote::Fail
            }),
    {
        if succeeded {
            AfterRemote::Done
        } else if self.config.fallback_local {
            AfterRemote::RunLocally
        } else {
            AfterRemote::Fail
        }
    }
}

} // verus!
