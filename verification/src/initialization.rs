//! Where the configuration file is: the rule for the program's arguments.

use crate::errors::ConfigError;
use vstd::prelude::*;
use vstd::string::{StrSliceExecFns, StringExecFns};

verus! {

/// The text with which the argument that names the configuration file begins.
pub open spec fn config_flag() -> Seq<char> {
    "--config="@
}

/// Whether an argument names the configuration file.
pub open spec fn names_config(argument: Seq<char>) -> bool {
    config_flag().is_prefix_of(argument)
}

/// Whether the argument at `at` is the first that names the configuration
/// file.
pub open spec fn is_first_config(args: Seq<String>, at: int) -> bool {
    &&& 0 <= at < args.len()
    &&& names_config(args[at]@)
    &&& forall|j: int| 0 <= j < at ==> !names_config(#[trigger] args[j]@)
}

/// The words of the error for arguments without a configuration file.
pub open spec fn missing_config() -> Seq<char> {
    "missing --config=<config_path>"@
}

/// Whether `argument` names the configuration file.
fn has_config_flag(argument: &str) -> (b: bool)
    ensures
        b == names_config(argument@),
{
    let flag = "--config=";
    proof {
        reveal_strlit("--config=");
    }
    if argument.unicode_len() < 9 {
        return false;
    }
    let mut k: usize = 0;
    while k < 9
        invariant
            0 <= k <= 9,
            flag@ == config_flag(),
            flag@.len() == 9,
            argument@.len() >= 9,
            forall|j: int| 0 <= j < k ==> argument@[j] == flag@[j],
        decreases 9 - k,
    {
        if argument.get_char(k) != flag.get_char(k) {
            assert(argument@.subrange(0, 9)[k as int] != flag@[k as int]);
            return false;
        }
        k += 1;
    }
    assert(argument@.subrange(0, 9) =~= flag@);
    true
}

/// The path of the configuration file: what follows `--config=` in the
/// first argument that begins so.  Arguments without one are an error.
pub fn config_path(args: &Vec<String>) -> (r: Result<String, ConfigError>)
    ensures
        match r {
            Ok(path) => exists|at: int|
                is_first_config(args@, at) && path@ == (#[trigger] args@[at])@.skip(
                    config_flag().len() as int,
                ),
            Err(e) => e.reason() == missing_config() && forall|j: int|
                0 <= j < args@.len() ==> !names_config(#[trigger] args@[j]@),
        },
{
    let mut i: usize = 0;
    while i < args.len()
        invariant
            0 <= i <= args.len(),
            forall|j: int| 0 <= j < i ==> !names_config(#[trigger] args@[j]@),
        decreases args.len() - i,
    {
        let argument = args[i].as_str();
        if has_config_flag(argument) {
            proof {
                reveal_strlit("--config=");
            }
            let length = argument.unicode_len();
            let path = String::from_str(argument.substring_char(9, length));
            proof {
                assert(is_first_config(args@, i as int));
                assert(path@ =~= args@[i as int]@.skip(config_flag().len() as int));
            }
            return Ok(path);
        }
        i += 1;
    }
    Err(ConfigError::new("missing --config=<config_path>"))
}

} // verus!
