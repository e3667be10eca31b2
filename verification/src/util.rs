//! Command-line helpers: which files a test suite holds, which log filter and colours the
//! tracing output uses, and where a test runner finds its suite.

use vstd::prelude::*;
use crate::bytes::bytes_eq;
use vstd::string::StringSliceAdditionalSpecFns;

verus! {

/// `postfix` ends `name`, byte for byte.
pub open spec fn ends_with(name: Seq<u8>, postfix: Seq<u8>) -> bool {
    postfix.len() <= name.len() && name.subrange(name.len() - postfix.len(), name.len() as int) == postfix
}

/// Whether a file name ends with the postfix: the files a suite search keeps.
pub fn has_postfix(file_name: &str, postfix: &str) -> (r: bool)
    ensures
        r == ends_with(file_name.spec_bytes(), postfix.spec_bytes()),
{
    let name = file_name.as_bytes();
    let post = postfix.as_bytes();
    if post.len() > name.len() {
        return false;
    }
    let n = name.len();
    let start = n - post.len();
    let mut i: usize = 0;
    while i < post.len()
        invariant
            name@ == file_name.spec_bytes(),
            post@ == postfix.spec_bytes(),
            post@.len() <= name@.len(),
            n == name@.len(),
            start == name@.len() - post@.len(),
            i <= post@.len(),
            forall|j: int| 0 <= j < i ==> name@[start + j] == post@[j],
        decreases post@.len() - i,
    {
        assert(start + i < n);
        if name[start + i] != post[i] {
            assert(name@.subrange(start as int, name@.len() as int)[i as int] != post@[i as int]);
            return false;
        }
        i = i + 1;
    }
    assert(name@.subrange(start as int, name@.len() as int) =~= post@);
    true
}

/// Tracing modes.
#[derive(Clone, Copy, Debug, PartialEq, Eq, Structural)]
pub enum TracingMode {
    /// Enable all info traces.
    All,
    /// Disable tracing.
    Silent,
}

/// The log filter directive of a tracing mode.
pub open spec fn mode_directive(mode: TracingMode) -> Seq<char> {
    match mode {
        TracingMode::All => "reth=info"@,
        TracingMode::Silent => ""@,
    }
}

impl TracingMode {
    /// The log filter directive of the mode: info traces of reth, or none at all.
    pub fn into_env_filter(self) -> (r: &'static str)
        ensures
            r@ == mode_directive(self),
    {
        match self {
            TracingMode::All => "reth=info",
            TracingMode::Silent => "",
        }
    }
}

/// Where the subscriber's log filter comes from.
#[derive(Clone, Copy, Debug, PartialEq, Eq, Structural)]
pub enum FilterSource {
    /// The directive of the tracing mode.
    Mode(TracingMode),
    /// The environment's filter.
    Environment,
}

/// The log filter the subscriber uses: the environment's filter takes precedence over the
/// mode's, unless it is empty or unset.
pub fn filter_source(mode: TracingMode, env_filter: &str) -> (r: FilterSource)
    ensures
        env_filter@.len() == 0 ==> r == FilterSource::Mode(mode),
        env_filter@.len() != 0 ==> r == FilterSource::Environment,
{
    if env_filter.is_empty() {
        FilterSource::Mode(mode)
    } else {
        FilterSource::Environment
    }
}

/// Whether colours are turned off: the log style setting says exactly "never".
pub fn colors_disabled(log_style: Option<&str>) -> (r: bool)
    ensures
        r == match log_style {
            Some(s) => s.spec_bytes() == "never".spec_bytes(),
            None => false,
        },
{
    match log_style {
        Some(s) => {
            let a = s.as_bytes();
            let b = "never".as_bytes();
            let same = bytes_eq(a, b);
            proof {
                if same {
                    assert(a@ =~= b@);
                }
            }
            same
        },
        None => false,
    }
}

/// Command-line arguments of the test runner.
#[derive(Debug)]
pub struct TestRunnerCommand {
    /// Path to the test suite.
    pub suite_path: String,
}

impl TestRunnerCommand {
    /// Arguments naming the suite at `suite_path`.
    pub fn new(suite_path: String) -> (r: TestRunnerCommand)
        ensures
            r.suite_path@ == suite_path@,
    {
        TestRunnerCommand { suite_path }
    }
}

} // verus!
