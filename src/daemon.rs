//! Background execution. Running detached is not supported: the sweep runs
//! in the foreground, and these entry points report success.
use vstd::prelude::*;

verus! {

/// Detaching from the terminal is not supported; the sweep stays in the
/// foreground.
pub fn daemonize() -> (r: Result<(), String>)
    ensures
        r is Ok,
{
    Ok(())
}

/// Recording the process id is not supported; nothing is written.
pub fn write_pid_file(_path: &str) -> (r: Result<(), String>)
    ensures
        r is Ok,
{
    Ok(())
}

/// Without a pid file to watch, a sweep always continues.
pub fn should_continue(_pid_file: &str) -> (r: bool)
    ensures
        r,
{
    true
}

} // verus!
