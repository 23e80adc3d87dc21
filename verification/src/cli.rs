//! Command-line value types whose meaning belongs to the core: the runtime
//! choice between a single-threaded and a multi-threaded scheduler.

use vstd::prelude::*;

use crate::text::{lower_seq, str_eq_ignore_ascii_case};

verus! {

/// How the task scheduler is to be built.
#[derive(Clone, Copy, PartialEq, Eq, Structural, Debug)]
pub enum RuntimeType {
    SingleThread,
    MultiThreaded,
}

/// Error for a string naming neither scheduler.
#[derive(Debug)]
pub struct RuntimeTypeParseError;

/// The runtime a string names, compared without regard to ASCII case.
pub open spec fn spec_parse_runtime(s: Seq<char>) -> Option<RuntimeType> {
    if lower_seq(s) == lower_seq("single-threaded"@) {
        Some(RuntimeType::SingleThread)
    } else if lower_seq(s) == lower_seq("multi-threaded"@) {
        Some(RuntimeType::MultiThreaded)
    } else {
        None
    }
}

impl RuntimeType {
    /// Parses the runtime argument.
    pub fn parse(s: &str) -> (r: Result<RuntimeType, RuntimeTypeParseError>)
        ensures
            match r {
                Ok(v) => spec_parse_runtime(s@) == Some(v),
                Err(_) => spec_parse_runtime(s@) is None,
            },
    {
        if str_eq_ignore_ascii_case(s, "single-threaded") {
            Ok(RuntimeType::SingleThread)
        } else if str_eq_ignore_ascii_case(s, "multi-threaded") {
            Ok(RuntimeType::MultiThreaded)
        } else {
            Err(RuntimeTypeParseError)
        }
    }

    /// The argument text that names this runtime.
    pub fn as_str(self) -> (r: &'static str)
        ensures
            r@ == match self {
                RuntimeType::SingleThread => "single-threaded"@,
                RuntimeType::MultiThreaded => "multi-threaded"@,
            },
            spec_parse_runtime(r@) == Some(self),
    {
        proof {
            reveal_strlit("single-threaded");
            reveal_strlit("multi-threaded");
            assert(lower_seq("single-threaded"@) =~= lower_seq("single-threaded"@));
            assert(lower_seq("single-threaded"@) != lower_seq("multi-threaded"@)) by {
                assert(lower_seq("single-threaded"@).len() == 15);
                assert(lower_seq("multi-threaded"@).len() == 14);
            }
        }
        match self {
            RuntimeType::SingleThread => "single-threaded",
            RuntimeType::MultiThreaded => "multi-threaded",
        }
    }
}

} // verus!
