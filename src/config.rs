//! Options taken from the command line.
use vstd::prelude::*;
use crate::text::{ends_with, has_suffix};

verus! {

/// Options passed on the command line.
#[derive(Clone, Debug)]
pub struct RuntimeConfig {
    pub input_file: String,
    pub trading_enabled: bool,
}

impl RuntimeConfig {
    pub fn new(input_file: String, trading_enabled: bool) -> (r: RuntimeConfig)
        ensures
            r.input_file@ == input_file@,
            r.trading_enabled == trading_enabled,
    {
        RuntimeConfig { input_file, trading_enabled }
    }
}

/// Whether an argument turns trading on.
pub open spec fn is_trading_flag(a: Seq<char>) -> bool {
    a == "-t"@ || a == "--trading-enabled"@
}

/// The last argument naming a `.csv` file, if any.
pub open spec fn last_csv(args: Seq<Seq<char>>) -> Option<Seq<char>>
    decreases args.len(),
{
    if args.len() == 0 {
        None
    } else if !is_trading_flag(args.last()) && has_suffix(args.last(), ".csv"@) {
        Some(args.last())
    } else {
        last_csv(args.drop_last())
    }
}

/// The views of the arguments.
pub open spec fn args_view(args: Seq<String>) -> Seq<Seq<char>> {
    args.map_values(|s: String| s@)
}

/// Reads the arguments: trading is enabled by `-t` or `--trading-enabled` anywhere, and the
/// input is the last argument ending in `.csv`. `None` when no argument names an input.
pub fn parse_args(args: &Vec<String>) -> (r: Option<RuntimeConfig>)
    ensures
        ({
            let a = args_view(args@);
            match r {
                Some(c) => last_csv(a) == Some(c.input_file@) && c.trading_enabled == exists|i: int|
                    0 <= i < a.len() && is_trading_flag(#[trigger] a[i]),
                None => last_csv(a) is None,
            }
        }),
{
    let ghost a = args_view(args@);
    let mut trading_enabled = false;
    let mut input_file: Option<usize> = None;
    let mut i: usize = 0;
    while i < args.len()
        invariant
            0 <= i <= args@.len(),
            a == args_view(args@),
            trading_enabled == exists|k: int| 0 <= k < i && is_trading_flag(#[trigger] a[k]),
            match input_file {
                Some(k) => k < i && last_csv(a.take(i as int)) == Some(a[k as int]),
                None => last_csv(a.take(i as int)) is None,
            },
        decreases args@.len() - i,
    {
        let arg = &args[i];
        assert(a[i as int] == arg@);
        assert(a.take(i + 1).drop_last() =~= a.take(i as int));
        assert(a.take(i + 1).last() == arg@);
        proof {
            reveal_strlit("-t");
            reveal_strlit("--trading-enabled");
        }
        let flag = crate::text::starts_with(arg, "-t") && arg.as_str().unicode_len() == 2
            || crate::text::starts_with(arg, "--trading-enabled") && arg.as_str().unicode_len() == 17;
        assert(flag == is_trading_flag(arg@)) by {
            if arg@ == "-t"@ {
                assert(arg@.subrange(0, 2) =~= arg@);
            }
            if arg@ == "--trading-enabled"@ {
                assert(arg@.subrange(0, 17) =~= arg@);
            }
            if flag {
                if arg@.len() == 2 {
                    assert(arg@ =~= arg@.subrange(0, 2));
                } else {
                    assert(arg@ =~= arg@.subrange(0, 17));
                }
            }
        }
        if flag {
            trading_enabled = true;
        } else if ends_with(arg, ".csv") {
            input_file = Some(i);
        }
        i += 1;
    }
    assert(a.take(i as int) =~= a);
    match input_file {
        Some(k) => Some(RuntimeConfig::new(args[k].clone(), trading_enabled)),
        None => None,
    }
}

} // verus!
