//! Command-line options of the batch tool: `--name value` pairs.

use vstd::prelude::*;
use vstd::string::StringExecFns;
use crate::search::string_views;

verus! {

/// The options the batch tool reads; the last value given for a name wins.
#[derive(Debug, Default, Clone, PartialEq, Eq)]
pub struct BatchOptions {
    pub load: Option<String>,
    pub load_strings: Option<String>,
    pub load_plugin: Option<String>,
    pub importxml: Option<String>,
    pub finalize: Option<String>,
    pub workspace_root: Option<String>,
    pub dict_in: Option<String>,
    pub dict_out: Option<String>,
    pub source: Option<String>,
    pub target: Option<String>,
    pub generate_dictionary: Option<String>,
}

pub open spec fn starts_with_dashes(s: Seq<char>) -> bool {
    s.len() >= 2 && s[0] == '-' && s[1] == '-'
}

/// The complaint about the arguments from position `i` on, if any: a name
/// that does not start with `--`, or a name without a value.
pub open spec fn args_error(args: Seq<Seq<char>>, i: int) -> Option<Seq<char>>
    decreases args.len() - i,
{
    if i < 0 || i >= args.len() {
        None
    } else if !starts_with_dashes(args[i]) {
        Some("invalid argument: "@ + args[i])
    } else if i + 1 >= args.len() {
        Some("missing value for "@ + args[i])
    } else {
        args_error(args, i + 2)
    }
}

/// The value given last for `name` among the first `p` pairs.
pub open spec fn option_value(args: Seq<Seq<char>>, name: Seq<char>, p: int) -> Option<Seq<char>>
    decreases p,
{
    if p <= 0 {
        None
    } else if args[2 * p - 2] == name {
        Some(args[2 * p - 1])
    } else {
        option_value(args, name, p - 1)
    }
}

pub open spec fn opt_string(o: Option<String>) -> Option<Seq<char>> {
    match o {
        Some(s) => Some(s@),
        None => None,
    }
}

fn value_for(args: &[String], name: &str) -> (r: Option<String>)
    requires
        args@.len() % 2 == 0,
    ensures
        opt_string(r) == option_value(string_views(args@), name@, (args@.len() / 2) as int),
{
    let ghost av = string_views(args@);
    let key = name.to_owned();
    let alen = args.len();
    let mut p = alen / 2;
    while p > 0
        invariant
            p <= args@.len() / 2,
            alen == args@.len(),
            args@.len() % 2 == 0,
            av == string_views(args@),
            key@ == name@,
            option_value(av, name@, (args@.len() / 2) as int) == option_value(av, name@, p as int),
        decreases p,
    {
        proof {
            assert(av[2 * p - 2] == args@[2 * p - 2]@);
            assert(av[2 * p - 1] == args@[2 * p - 1]@);
        }
        if args[2 * p - 2] == key {
            return Some(args[2 * p - 1].clone());
        }
        p = p - 1;
    }
    None
}

fn has_dashes(s: &String) -> (r: bool)
    ensures
        r == starts_with_dashes(s@),
{
    let mut n: usize = 0;
    let mut ok = true;
    for c in it: s.as_str().chars()
        invariant
            it.seq() == s@,
            n == if it.index() < 2 { it.index() } else { 2 },
            ok == forall|k: int| 0 <= k < it.index() && k < 2 ==> s@[k] == '-',
    {
        if n < 2 {
            if c != '-' {
                ok = false;
            }
            n = n + 1;
        }
    }
    ok && n == 2
}

/// Reads `--name value` pairs into the options.
pub fn parse_args(args: &[String]) -> (r: Result<BatchOptions, String>)
    ensures
        match args_error(string_views(args@), 0) {
            Some(msg) => r matches Err(m) && m@ == msg,
            None => r matches Ok(o) && args@.len() % 2 == 0 && {
                let av = string_views(args@);
                let p = (args@.len() / 2) as int;
                &&& opt_string(o.load) == option_value(av, "--load"@, p)
                &&& opt_string(o.load_strings) == option_value(av, "--load-strings"@, p)
                &&& opt_string(o.load_plugin) == option_value(av, "--load-plugin"@, p)
                &&& opt_string(o.importxml) == option_value(av, "--importxml"@, p)
                &&& opt_string(o.finalize) == option_value(av, "--finalize"@, p)
                &&& opt_string(o.workspace_root) == option_value(av, "--workspace-root"@, p)
                &&& opt_string(o.dict_in) == option_value(av, "--dict-in"@, p)
                &&& opt_string(o.dict_out) == option_value(av, "--dict-out"@, p)
                &&& opt_string(o.source) == option_value(av, "--source"@, p)
                &&& opt_string(o.target) == option_value(av, "--target"@, p)
                &&& opt_string(o.generate_dictionary) == option_value(av, "--generate-dictionary"@, p)
            },
        },
{
    let ghost av = string_views(args@);
    let n = args.len();
    let mut i: usize = 0;
    while i < n
        invariant
            n == args@.len(),
            av == string_views(args@),
            i <= n,
            i % 2 == 0,
            args_error(av, 0) == args_error(av, i as int),
        decreases n - i,
    {
        proof {
            assert(av[i as int] == args@[i as int]@);
        }
        if !has_dashes(&args[i]) {
            let mut msg = "invalid argument: ".to_owned();
            msg.append(args[i].as_str());
            return Err(msg);
        }
        if i + 1 >= n {
            let mut msg = "missing value for ".to_owned();
            msg.append(args[i].as_str());
            return Err(msg);
        }
        i = i + 2;
    }
    proof {
        assert(n % 2 == 0);
    }
    Ok(BatchOptions {
        load: value_for(args, "--load"),
        load_strings: value_for(args, "--load-strings"),
        load_plugin: value_for(args, "--load-plugin"),
        importxml: value_for(args, "--importxml"),
        finalize: value_for(args, "--finalize"),
        workspace_root: value_for(args, "--workspace-root"),
        dict_in: value_for(args, "--dict-in"),
        dict_out: value_for(args, "--dict-out"),
        source: value_for(args, "--source"),
        target: value_for(args, "--target"),
        generate_dictionary: value_for(args, "--generate-dictionary"),
    })
}

} // verus!
