use vstd::prelude::*;
use vstd::string::StringExecFns;
use crate::text::decimal;
use crate::text::push_decimal;

verus! {

/// What a kill request reports, and whether it reports it as an error.
pub struct KillReport {
    pub is_error: bool,
    pub message: String,
}

/// The message for a kill request of `pid`: `name` is the process's name when
/// it was found, `killed` whether the signal was delivered.
pub open spec fn kill_message(pid: u32, name: Option<Seq<char>>, killed: bool, force: bool) -> Seq<
    char,
> {
    let id = decimal(pid as nat);
    match name {
        None => "Process with PID "@ + id + " not found."@,
        Some(n) => if !killed {
            "Failed to terminate process "@ + n + " (PID: "@ + id + ")."@
        } else if force {
            "Process "@ + n + " (PID: "@ + id + ") has been force killed."@
        } else {
            "Process "@ + n + " (PID: "@ + id + ") has been terminated."@
        },
    }
}

/// The outcome of a kill request: an error when the process was not found or
/// the signal was not delivered.
pub fn kill_report(pid: u32, name: Option<String>, killed: bool, force: bool) -> (r: KillReport)
    ensures
        r.is_error == (name is None || !killed),
        r.message@ == kill_message(
            pid,
            match name {
                Some(n) => Some(n@),
                None => None,
            },
            killed,
            force,
        ),
        name is Some ==> (r.is_error <==> "Failed to terminate process "@.is_prefix_of(r.message@)),
{
    proof {
        reveal_strlit("Process with PID ");
        reveal_strlit(" not found.");
        reveal_strlit("Failed to terminate process ");
        reveal_strlit(" (PID: ");
        reveal_strlit(").");
        reveal_strlit("Process ");
        reveal_strlit(") has been force killed.");
        reveal_strlit(") has been terminated.");
    }
    match name {
        None => {
            let mut m = String::from_str("Process with PID ");
            push_decimal(&mut m, pid as u64);
            m.append(" not found.");
            KillReport { is_error: true, message: m }
        },
        Some(n) => {
            let mut m = if killed {
                String::from_str("Process ")
            } else {
                String::from_str("Failed to terminate process ")
            };
            m.append(n.as_str());
            m.append(" (PID: ");
            push_decimal(&mut m, pid as u64);
            if !killed {
                m.append(").");
            } else if force {
                m.append(") has been force killed.");
            } else {
                m.append(") has been terminated.");
            }
            proof {
                lemma_kill_message_reports_delivery(pid, n@, killed, force);
            }
            KillReport { is_error: !killed, message: m }
        },
    }
}

/// For a process that was found, the message reports a failure exactly when
/// the signal was not delivered, and then names the process and its id
/// whatever the signal was; a delivered signal is reported as a termination
/// or, for a forced request, as a kill.
pub proof fn lemma_kill_message_reports_delivery(pid: u32, n: Seq<char>, killed: bool, force: bool)
    ensures
        "Failed to terminate process "@.is_prefix_of(kill_message(pid, Some(n), killed, force))
            <==> !killed,
        !killed ==> kill_message(pid, Some(n), killed, force) == "Failed to terminate process "@
            + n + " (PID: "@ + decimal(pid as nat) + ")."@,
        !killed ==> kill_message(pid, Some(n), killed, force) == kill_message(
            pid,
            Some(n),
            killed,
            !force,
        ),
        killed ==> "Process "@.is_prefix_of(kill_message(pid, Some(n), killed, force)),
        killed && force ==> kill_message(pid, Some(n), killed, force) == "Process "@ + n
            + " (PID: "@ + decimal(pid as nat) + ") has been force killed."@,
        killed && !force ==> kill_message(pid, Some(n), killed, force) == "Process "@ + n
            + " (PID: "@ + decimal(pid as nat) + ") has been terminated."@,
{
    reveal_strlit("Failed to terminate process ");
    reveal_strlit("Process ");
    let m = kill_message(pid, Some(n), killed, force);
    let fail = "Failed to terminate process "@;
    let ok = "Process "@;
    if killed {
        assert(m.subrange(0, ok.len() as int) =~= ok);
        assert(m[0] != fail[0]);
    } else {
        assert(m.subrange(0, fail.len() as int) =~= fail);
    }
}

/// A request for a process that was not found reports that no process has
/// the id, whatever the other arguments.
pub proof fn lemma_kill_message_not_found(pid: u32, killed: bool, force: bool)
    ensures
        kill_message(pid, None, killed, force) == "Process with PID "@ + decimal(pid as nat)
            + " not found."@,
{
}

} // verus!

verus! {

/// The signal a kill request sends.
#[derive(Clone, Copy, Debug, PartialEq, Eq)]
pub enum KillSignal {
    /// A graceful termination request (SIGTERM).
    Terminate,
    /// An immediate kill (SIGKILL).
    Kill,
}

/// The signal for a kill request: a forced request kills the process, any
/// other asks it to terminate.
pub fn kill_signal(force: bool) -> (r: KillSignal)
    ensures
        r == (if force {
            KillSignal::Kill
        } else {
            KillSignal::Terminate
        }),
{
    if force {
        KillSignal::Kill
    } else {
        KillSignal::Terminate
    }
}

} // verus!
