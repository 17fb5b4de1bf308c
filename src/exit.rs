use vstd::prelude::*;

verus! {

/// The exit code that stands for how a child process ended: its own code, else
/// 128 plus the signal that ended it, else 1.
pub open spec fn exit_code_of(code: Option<i32>, signal: Option<i32>) -> int {
    match code {
        Some(c) => c as int,
        None => match signal {
            Some(s) => 128 + s,
            None => 1,
        },
    }
}

/// The exit code to report for a child process that ended with `code`, or was
/// ended by `signal`.
pub fn exit_status_code(code: Option<i32>, signal: Option<i32>) -> (r: i32)
    requires
        code is None ==> match signal {
            Some(s) => s <= i32::MAX - 128,
            None => true,
        },
    ensures
        r as int == exit_code_of(code, signal),
{
    if let Some(c) = code {
        return c;
    }
    if let Some(s) = signal {
        return 128 + s;
    }
    1
}

} // verus!
