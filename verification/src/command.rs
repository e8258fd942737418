//! How a rule command is run, and what its outcome amounts to.

use crate::pane_watchdog::{MatchView, PaneMatch, COMMAND_TIMEOUT_SECS};
use vstd::prelude::*;

verus! {

/// A process to run.
#[derive(Debug)]
pub struct CommandRequest {
    pub program: String,
    pub args: Vec<String>,
    /// Variables to set in its environment.
    pub env: Vec<(String, String)>,
    /// Seconds after which it is killed.
    pub timeout_secs: u64,
}

/// A process to run, as plain values.
pub struct RequestView {
    pub program: Seq<char>,
    pub args: Seq<Seq<char>>,
    pub env: Seq<(Seq<char>, Seq<char>)>,
    pub timeout_secs: u64,
}

impl View for CommandRequest {
    type V = RequestView;

    open spec fn view(&self) -> RequestView {
        RequestView {
            program: self.program@,
            args: Seq::new(self.args@.len(), |i: int| self.args@[i]@),
            env: Seq::new(self.env@.len(), |i: int| (self.env@[i].0@, self.env@[i].1@)),
            timeout_secs: self.timeout_secs,
        }
    }
}

/// The shell run of a match's command, with the match in its environment.
pub open spec fn shell_run(m: MatchView, command: Seq<char>) -> RequestView {
    RequestView {
        program: "sh"@,
        args: seq!["-c"@, command],
        env: seq![
            ("AOE_RULE_NAME"@, m.rule_name),
            ("AOE_RULE_KIND"@, m.kind),
            ("AOE_SESSION_ID"@, m.session_id),
            ("AOE_SESSION_TITLE"@, m.title),
            ("AOE_SESSION_PROFILE"@, m.profile),
        ],
        timeout_secs: COMMAND_TIMEOUT_SECS,
    }
}

/// Whether a list of variables sets the one of that name, once, to that
/// value.
pub open spec fn sets_once(
    env: Seq<(String, String)>,
    name: Seq<char>,
    value: Seq<char>,
) -> bool {
    exists|i: int|
        0 <= i < env.len() && (#[trigger] env[i]).0@ == name && env[i].1@ == value && forall|j: int|
            0 <= j < env.len() && (#[trigger] env[j]).0@ == name ==> j == i
}

proof fn lemma_names_differ()
    ensures
        "AOE_RULE_NAME"@ != "AOE_RULE_KIND"@,
        "AOE_RULE_NAME"@ != "AOE_SESSION_ID"@,
        "AOE_RULE_NAME"@ != "AOE_SESSION_TITLE"@,
        "AOE_RULE_NAME"@ != "AOE_SESSION_PROFILE"@,
        "AOE_RULE_KIND"@ != "AOE_SESSION_ID"@,
        "AOE_RULE_KIND"@ != "AOE_SESSION_TITLE"@,
        "AOE_RULE_KIND"@ != "AOE_SESSION_PROFILE"@,
        "AOE_SESSION_ID"@ != "AOE_SESSION_TITLE"@,
        "AOE_SESSION_ID"@ != "AOE_SESSION_PROFILE"@,
        "AOE_SESSION_TITLE"@ != "AOE_SESSION_PROFILE"@,
{
    reveal_strlit("AOE_RULE_NAME");
    reveal_strlit("AOE_RULE_KIND");
    reveal_strlit("AOE_SESSION_ID");
    reveal_strlit("AOE_SESSION_TITLE");
    reveal_strlit("AOE_SESSION_PROFILE");
    assert("AOE_RULE_NAME"@[9] == 'N');
    assert("AOE_RULE_KIND"@[9] == 'K');
    assert("AOE_RULE_NAME"@.len() == 13);
    assert("AOE_RULE_KIND"@.len() == 13);
    assert("AOE_SESSION_ID"@.len() == 14);
    assert("AOE_SESSION_TITLE"@.len() == 17);
    assert("AOE_SESSION_PROFILE"@.len() == 19);
}

/// The environment of a rule command tells its match: looked up by name, each
/// of the five variables is there once and holds the field that it is named
/// after, whatever the other fields hold.
pub proof fn environment_tells_the_match(m: PaneMatch, request: CommandRequest)
    requires
        m@.command is Some,
        request@ == shell_run(m@, m@.command->0),
    ensures
        request.env@.len() == 5,
        sets_once(request.env@, "AOE_RULE_NAME"@, m.rule_name@),
        sets_once(request.env@, "AOE_RULE_KIND"@, m.kind@),
        sets_once(request.env@, "AOE_SESSION_ID"@, m.session_id@),
        sets_once(request.env@, "AOE_SESSION_TITLE"@, m.title@),
        sets_once(request.env@, "AOE_SESSION_PROFILE"@, m.profile@),
        forall|i: int|
            0 <= i < request.env@.len() ==> {
                &&& (#[trigger] request.env@[i]).0@ == "AOE_RULE_NAME"@ ==> request.env@[i].1@
                    == m.rule_name@
                &&& request.env@[i].0@ == "AOE_RULE_KIND"@ ==> request.env@[i].1@ == m.kind@
                &&& request.env@[i].0@ == "AOE_SESSION_ID"@ ==> request.env@[i].1@
                    == m.session_id@
                &&& request.env@[i].0@ == "AOE_SESSION_TITLE"@ ==> request.env@[i].1@ == m.title@
                &&& request.env@[i].0@ == "AOE_SESSION_PROFILE"@ ==> request.env@[i].1@
                    == m.profile@
            },
{
    lemma_names_differ();
    let env = request.env@;
    assert(request@.env.len() == 5);
    assert forall|i: int| 0 <= i < env.len() implies #[trigger] env[i].0@ == shell_run(
        m@,
        m@.command->0,
    ).env[i].0 && env[i].1@ == shell_run(m@, m@.command->0).env[i].1 by {
        assert(request@.env[i] == (env[i].0@, env[i].1@));
    }
    assert(env[0].0@ == "AOE_RULE_NAME"@);
    assert(env[1].0@ == "AOE_RULE_KIND"@);
    assert(env[2].0@ == "AOE_SESSION_ID"@);
    assert(env[3].0@ == "AOE_SESSION_TITLE"@);
    assert(env[4].0@ == "AOE_SESSION_PROFILE"@);
}

/// A rule command is handed to `sh -c` in one piece, and has a minute.
pub proof fn command_is_run_as_written(m: PaneMatch, request: CommandRequest)
    requires
        m@.command is Some,
        request@ == shell_run(m@, m@.command->0),
    ensures
        m.command is Some,
        request.program@ == "sh"@,
        request.args@.len() == 2,
        request.args@[0]@ == "-c"@,
        request.args@[1]@ == m.command->0@,
        request.timeout_secs == 60,
{
    assert(request@.args.len() == 2);
    assert(request@.args[0] == request.args@[0]@);
    assert(request@.args[1] == request.args@[1]@);
}

/// How to run a matched rule's command: via `sh -c`, with the match context
/// in the environment. Nothing is run for a rule without a command.
pub fn command_request(m: &PaneMatch) -> (r: Option<CommandRequest>)
    ensures
        match r {
            Some(request) => m@.command is Some && request@ == shell_run(m@, m@.command->0),
            None => m@.command is None,
        },
        r is Some <==> m.command is Some,
        r matches Some(request) ==> {
            &&& request.program@ == "sh"@
            &&& request.args@.len() == 2
            &&& request.args@[0]@ == "-c"@
            &&& request.args@[1]@ == m.command->0@
            &&& request.env@.len() == 5
            &&& sets_once(request.env@, "AOE_RULE_NAME"@, m.rule_name@)
            &&& sets_once(request.env@, "AOE_RULE_KIND"@, m.kind@)
            &&& sets_once(request.env@, "AOE_SESSION_ID"@, m.session_id@)
            &&& sets_once(request.env@, "AOE_SESSION_TITLE"@, m.title@)
            &&& sets_once(request.env@, "AOE_SESSION_PROFILE"@, m.profile@)
            &&& request.timeout_secs == 60
        },
{
    match &m.command {
        Some(command) => {
            let mut args: Vec<String> = Vec::new();
            args.push("-c".to_owned());
            args.push(command.clone());
            let mut env: Vec<(String, String)> = Vec::new();
            env.push(("AOE_RULE_NAME".to_owned(), m.rule_name.clone()));
            env.push(("AOE_RULE_KIND".to_owned(), m.kind.clone()));
            env.push(("AOE_SESSION_ID".to_owned(), m.session_id.clone()));
            env.push(("AOE_SESSION_TITLE".to_owned(), m.title.clone()));
            env.push(("AOE_SESSION_PROFILE".to_owned(), m.profile.clone()));
            let request = CommandRequest {
                program: "sh".to_owned(),
                args,
                env,
                timeout_secs: COMMAND_TIMEOUT_SECS,
            };
            proof {
                let want = shell_run(m@, command@);
                assert(request@.args == want.args);
                assert(request@.env == want.env);
                environment_tells_the_match(*m, request);
            }
            Some(request)
        },
        None => None,
    }
}

/// What became of a rule command.
#[derive(Debug, Clone, Copy, PartialEq, Eq, Structural)]
pub enum CommandOutcome {
    /// It ran too long and was killed.
    TimedOut,
    /// It could not be started or waited for.
    FailedToRun,
    /// It ended by itself.
    Exited { success: bool },
}

/// How loudly to log.
#[derive(Debug, Clone, Copy, PartialEq, Eq, Structural)]
pub enum LogLevel {
    Debug,
    Warn,
}

/// A log line about a rule command.
#[derive(Debug)]
pub struct CommandReport {
    pub level: LogLevel,
    pub message: &'static str,
    /// Whether to log the exit status and what the command wrote to stderr.
    pub with_output: bool,
}

/// What to log of a rule command. No outcome is fatal; all but success are
/// warnings, and stderr is shown where the command itself failed.
pub fn command_report(outcome: CommandOutcome) -> (r: CommandReport)
    ensures
        match outcome {
            CommandOutcome::TimedOut => r.level == LogLevel::Warn && r.message@
                == "rule command timed out; killed"@ && !r.with_output,
            CommandOutcome::FailedToRun => r.level == LogLevel::Warn && r.message@
                == "rule command failed to run"@ && !r.with_output,
            CommandOutcome::Exited { success: false } => r.level == LogLevel::Warn && r.message@
                == "rule command exited non-zero"@ && r.with_output,
            CommandOutcome::Exited { success: true } => r.level == LogLevel::Debug && r.message@
                == "rule command completed"@ && !r.with_output,
        },
{
    match outcome {
        CommandOutcome::TimedOut => CommandReport {
            level: LogLevel::Warn,
            message: "rule command timed out; killed",
            with_output: false,
        },
        CommandOutcome::FailedToRun => CommandReport {
            level: LogLevel::Warn,
            message: "rule command failed to run",
            with_output: false,
        },
        CommandOutcome::Exited { success } => if success {
            CommandReport {
                level: LogLevel::Debug,
                message: "rule command completed",
                with_output: false,
            }
        } else {
            CommandReport {
                level: LogLevel::Warn,
                message: "rule command exited non-zero",
                with_output: true,
            }
        },
    }
}

} // verus!
