//! What a task run comes to: the result records built from a finished
//! process, from a process that could not start, and from a run that timed out.
use vstd::prelude::*;
use vstd::utf8::{valid_utf8, decode_utf8};
use crate::protocol::TaskResultSpec;

verus! {

/// The text that `String::from_utf8_lossy` makes of `bytes`.
pub uninterp spec fn lossy_utf8(bytes: Seq<u8>) -> Seq<char>;

/// `std::string::String::from_utf8_lossy`, as an owned string: the text of
/// the bytes, with each invalid sequence replaced by U+FFFD. Valid UTF-8 is
/// decoded unchanged.
#[verifier::external_body]
pub(crate) fn lossy_text(bytes: &[u8]) -> (r: String)
    ensures
        r@ == lossy_utf8(bytes@),
        valid_utf8(bytes@) ==> r@ == decode_utf8(bytes@),
{
    String::from_utf8_lossy(bytes).to_string()
}

/// The decimal digit `d` as a character.
pub open spec fn digit_char(d: nat) -> char {
    ((('0' as u32) + d) as u8) as char
}

/// The decimal digits of `n`, without sign or leading zeros.
pub open spec fn decimal(n: nat) -> Seq<char>
    decreases n,
{
    if n < 10 {
        seq![digit_char(n)]
    } else {
        decimal(n / 10).push(digit_char(n % 10))
    }
}

/// `<u64 as ToString>::to_string`: the decimal digits of `n`.
#[verifier::external_body]
fn decimal_text(n: u64) -> (r: String)
    ensures
        r@ == decimal(n as nat),
{
    n.to_string()
}

/// The message recorded when a process could not be started.
pub open spec fn spawn_failure_message(error: Seq<char>) -> Seq<char> {
    "Failed to spawn process: "@ + error
}

/// The message recorded when a run took longer than its limit.
pub open spec fn timeout_message(timeout_secs: u64) -> Seq<char> {
    "Task execution timed out after "@ + decimal(timeout_secs as nat) + " seconds"@
}

/// Runs tasks as operating-system processes.
#[derive(Debug)]
pub struct TaskExecutor;

impl TaskExecutor {
    /// An executor.
    pub fn new() -> (r: Self) {
        TaskExecutor
    }

    /// The result of a process that ran: whether it succeeded, its exit code
    /// if it had one, and its two output streams read as UTF-8 (invalid
    /// sequences replaced).
    pub fn finished_result(
        task_id: String,
        success: bool,
        exit_code: Option<i32>,
        stdout: &[u8],
        stderr: &[u8],
    ) -> (r: TaskResultSpec)
        ensures
            r.task_id@ == task_id@,
            r.success == success,
            r.exit_code == exit_code,
            r.stdout@ == lossy_utf8(stdout@),
            r.stderr@ == lossy_utf8(stderr@),
    {
        TaskResultSpec {
            task_id,
            success,
            exit_code,
            stdout: lossy_text(stdout),
            stderr: lossy_text(stderr),
        }
    }

    /// The result of a process that could not be started, with the reason.
    pub fn spawn_failed_result(task_id: String, error: &str) -> (r: TaskResultSpec)
        ensures
            r.task_id@ == task_id@,
            !r.success,
            r.exit_code is None,
            r.stdout@ == Seq::<char>::empty(),
            r.stderr@ == spawn_failure_message(error@),
    {
        let mut msg = String::from_str("Failed to spawn process: ");
        msg.append(error);
        TaskResultSpec {
            task_id,
            success: false,
            exit_code: None,
            stdout: String::new(),
            stderr: msg,
        }
    }

    /// The result of a run stopped after `timeout_secs` seconds.
    pub fn timed_out_result(task_id: String, timeout_secs: u64) -> (r: TaskResultSpec)
        ensures
            r.task_id@ == task_id@,
            !r.success,
            r.exit_code is None,
            r.stdout@ == Seq::<char>::empty(),
            r.stderr@ == timeout_message(timeout_secs),
    {
        let mut msg = String::from_str("Task execution timed out after ");
        let digits = decimal_text(timeout_secs);
        msg.append(digits.as_str());
        msg.append(" seconds");
        TaskResultSpec {
            task_id,
            success: false,
            exit_code: None,
            stdout: String::new(),
            stderr: msg,
        }
    }
}

impl Default for TaskExecutor {
    fn default() -> (r: Self) {
        TaskExecutor::new()
    }
}

} // verus!
