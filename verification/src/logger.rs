//! The lines of the append-only log in the shared VENUS log directory,
//! following the `<tool>_<user>.log` convention of the other imaging tools.
use crate::text;
use crate::text::decimal;
use vstd::prelude::*;

verus! {

/// The directory of the logs.
pub const LOG_DIR: &'static str = "/SNS/VENUS/shared/log";

/// Who the log is of: the name that the environment gives, if it does.
pub fn user_id(name: Option<String>) -> (r: String)
    ensures
        r@ == match name {
            Some(n) => n@,
            None => "user"@,
        },
{
    match name {
        Some(n) => n,
        None => "user".to_owned(),
    }
}

/// The log of a user: `/SNS/VENUS/shared/log/rust_tilt_center_of_rotation_<user>.log`.
pub open spec fn user_log(user: Seq<char>) -> Seq<char> {
    LOG_DIR@ + "/"@ + "rust_tilt_center_of_rotation_"@ + user + ".log"@
}

/// `/SNS/VENUS/shared/log/rust_tilt_center_of_rotation_<user>.log`
pub fn log_path(user: &str) -> (r: String)
    ensures
        r@ == user_log(user@),
{
    let mut r: String = LOG_DIR.to_owned();
    r.append("/");
    r.append("rust_tilt_center_of_rotation_");
    r.append(user);
    r.append(".log");
    r
}

/// The message that a start of the application is logged with.
pub open spec fn started(user: Seq<char>, pid: nat, version: Seq<char>) -> Seq<char> {
    "=== Application started (user: "@ + user + ", pid: "@ + decimal(pid) + ", version: "@ + version + ") ==="@
}

/// The message that a start of the application is logged with.
pub fn start_message(user: &str, pid: u32, version: &str) -> (r: String)
    ensures
        r@ == started(user@, pid as nat, version@),
{
    let mut r: String = "=== Application started (user: ".to_owned();
    r.append(user);
    r.append(", pid: ");
    text::append_decimal(&mut r, pid as usize);
    r.append(", version: ");
    r.append(version);
    r.append(") ===");
    r
}

/// A line of the log.
pub open spec fn log_line(timestamp: Seq<char>, level: Seq<char>, msg: Seq<char>) -> Seq<char> {
    timestamp + " - "@ + level + " - "@ + msg + "\n"@
}

/// The line that a message of the given level is written as.
fn write_line(timestamp: &str, level: &str, msg: &str) -> (r: String)
    ensures
        r@ == log_line(timestamp@, level@, msg@),
{
    let mut r: String = timestamp.to_owned();
    r.append(" - ");
    r.append(level);
    r.append(" - ");
    r.append(msg);
    r.append("\n");
    r
}

/// The line of an informational message.
pub fn log(timestamp: &str, msg: &str) -> (r: String)
    ensures
        r@ == log_line(timestamp@, "INFO"@, msg@),
{
    write_line(timestamp, "INFO", msg)
}

/// The line of an error message.
pub fn error(timestamp: &str, msg: &str) -> (r: String)
    ensures
        r@ == log_line(timestamp@, "ERROR"@, msg@),
{
    write_line(timestamp, "ERROR", msg)
}

} // verus!
