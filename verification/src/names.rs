//! Names of the configuration values.

use crate::engine::AioEngine;
use crate::request::WriteZeroesState;
use vstd::prelude::*;
use vstd::string::StrSliceExecFns;

verus! {

/// Tells whether two strings hold the same characters.
pub fn same_str(s: &str, name: &str) -> (same: bool)
    ensures
        same == (s@ == name@),
{
    let len: usize = name.unicode_len();
    if s.unicode_len() != len {
        return false;
    }
    let mut i: usize = 0;
    while i < len
        invariant
            0 <= i <= len,
            len == name@.len(),
            len == s@.len(),
            forall|k: int| 0 <= k < i ==> s@[k] == name@[k],
        decreases len - i,
    {
        if s.get_char(i) != name.get_char(i) {
            return false;
        }
        i = i + 1;
    }
    proof {
        assert(s@ =~= name@);
    }
    true
}

/// The backend that a name stands for.
pub open spec fn spec_engine_named(name: Seq<char>) -> Option<AioEngine> {
    if name == "off"@ {
        Some(AioEngine::Off)
    } else if name == "native"@ {
        Some(AioEngine::Native)
    } else if name == "uring"@ {
        Some(AioEngine::IoUring)
    } else {
        None
    }
}

/// The write-zeroes policy that a name stands for.
pub open spec fn spec_write_zeroes_named(name: Seq<char>) -> Option<WriteZeroesState> {
    if name == "off"@ {
        Some(WriteZeroesState::Off)
    } else if name == "on"@ {
        Some(WriteZeroesState::On)
    } else if name == "unmap"@ {
        Some(WriteZeroesState::Unmap)
    } else {
        None
    }
}

impl AioEngine {
    /// The backend named `s`: `off`, `native` or `uring`.
    pub fn from_str(s: &str) -> (res: Result<AioEngine, ()>)
        ensures
            match spec_engine_named(s@) {
                Some(engine) => res == Ok::<AioEngine, ()>(engine),
                None => res is Err,
            },
    {
        if same_str(s, "off") {
            Ok(AioEngine::Off)
        } else if same_str(s, "native") {
            Ok(AioEngine::Native)
        } else if same_str(s, "uring") {
            Ok(AioEngine::IoUring)
        } else {
            Err(())
        }
    }
}

impl WriteZeroesState {
    /// The policy named `s`: `off`, `on` or `unmap`.
    pub fn from_str(s: &str) -> (res: Result<WriteZeroesState, ()>)
        ensures
            match spec_write_zeroes_named(s@) {
                Some(state) => res == Ok::<WriteZeroesState, ()>(state),
                None => res is Err,
            },
    {
        if same_str(s, "off") {
            Ok(WriteZeroesState::Off)
        } else if same_str(s, "on") {
            Ok(WriteZeroesState::On)
        } else if same_str(s, "unmap") {
            Ok(WriteZeroesState::Unmap)
        } else {
            Err(())
        }
    }
}

} // verus!
