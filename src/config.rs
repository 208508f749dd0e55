//! Command-line flags: `-name value` pairs read up to a bare `--`, and the
//! choice of the configuration file among them.

use vstd::prelude::*;
use vstd::string::{StrSliceExecFns, StringExecFns};

verus! {

/// An argument that starts with `-`.
pub open spec fn is_flag(s: Seq<char>) -> bool {
    s.len() > 0 && s[0] == '-'
}

/// The `-name value` pairs of `args` from position `i` on, in order: a flag
/// followed by an argument that is not a flag; a bare `--` ends the flags.
pub open spec fn flag_pairs(args: Seq<Seq<char>>, i: int) -> Seq<(Seq<char>, Seq<char>)>
    decreases args.len() - i,
{
    if i < 0 || i >= args.len() || args[i] == "--"@ {
        Seq::empty()
    } else {
        let here = if is_flag(args[i]) && i + 1 < args.len() && !is_flag(args[i + 1]) {
            seq![(args[i], args[i + 1])]
        } else {
            Seq::empty()
        };
        here + flag_pairs(args, i + 1)
    }
}

/// The value of the last pair named `name`: a later flag overrides an earlier one.
pub open spec fn lookup_last(pairs: Seq<(Seq<char>, Seq<char>)>, name: Seq<char>) -> Option<
    Seq<char>,
>
    decreases pairs.len(),
{
    if pairs.len() == 0 {
        None
    } else if pairs.last().0 == name {
        Some(pairs.last().1)
    } else {
        lookup_last(pairs.drop_last(), name)
    }
}

/// The configuration file: the value of `-f`, else of `--config-file`, else `default`.
pub open spec fn config_path(pairs: Seq<(Seq<char>, Seq<char>)>, default: Seq<char>) -> Seq<
    char,
> {
    match lookup_last(pairs, "-f"@) {
        Some(p) => p,
        None => match lookup_last(pairs, "--config-file"@) {
            Some(p) => p,
            None => default,
        },
    }
}

pub open spec fn strings_view(args: Seq<String>) -> Seq<Seq<char>> {
    args.map_values(|s: String| s@)
}

pub open spec fn pairs_view(pairs: Seq<(String, String)>) -> Seq<(Seq<char>, Seq<char>)> {
    pairs.map_values(|p: (String, String)| (p.0@, p.1@))
}

fn starts_with_dash(s: &String) -> (r: bool)
    ensures
        r == is_flag(s@),
{
    let t = s.as_str();
    t.unicode_len() > 0 && t.get_char(0) == '-'
}

/// The `-name value` pairs of the command line, in order.
pub fn parse_args(args: &Vec<String>) -> (r: Vec<(String, String)>)
    ensures
        pairs_view(r@) == flag_pairs(strings_view(args@), 0),
{
    let ghost av = strings_view(args@);
    let end = String::from_str("--");
    let mut out: Vec<(String, String)> = Vec::new();
    let mut i: usize = 0;
    while i < args.len()
        invariant
            av == strings_view(args@),
            end@ == "--"@,
            i <= args@.len(),
            pairs_view(out@) + flag_pairs(av, i as int) == flag_pairs(av, 0),
        ensures
            flag_pairs(av, i as int) == Seq::<(Seq<char>, Seq<char>)>::empty(),
        decreases args@.len() - i,
    {
        assert(av[i as int] == args@[i as int]@);
        if args[i] == end {
            break;
        }
        let ghost before = pairs_view(out@);
        if starts_with_dash(&args[i]) && i + 1 < args.len() && !starts_with_dash(&args[i + 1]) {
            assert(av[i + 1] == args@[i + 1]@);
            out.push((args[i].clone(), args[i + 1].clone()));
            assert(pairs_view(out@) =~= before + seq![(av[i as int], av[i + 1])]);
        } else {
            assert(pairs_view(out@) =~= before + Seq::<(Seq<char>, Seq<char>)>::empty());
        }
        assert(pairs_view(out@) + flag_pairs(av, i + 1) =~= before + flag_pairs(av, i as int));
        i = i + 1;
    }
    assert(pairs_view(out@) + Seq::<(Seq<char>, Seq<char>)>::empty() =~= pairs_view(out@));
    out
}

fn find_last(pairs: &Vec<(String, String)>, name: &String) -> (r: Option<String>)
    ensures
        match r {
            Some(v) => lookup_last(pairs_view(pairs@), name@) == Some(v@),
            None => lookup_last(pairs_view(pairs@), name@) is None,
        },
{
    let ghost pv = pairs_view(pairs@);
    let mut i: usize = pairs.len();
    assert(pv.subrange(0, i as int) =~= pv);
    while i > 0
        invariant
            pv == pairs_view(pairs@),
            i <= pairs@.len(),
            lookup_last(pv, name@) == lookup_last(pv.subrange(0, i as int), name@),
        decreases i,
    {
        let ghost sub = pv.subrange(0, i as int);
        assert(sub.last() == pv[i - 1]);
        assert(sub.drop_last() =~= pv.subrange(0, i - 1));
        if pairs[i - 1].0 == *name {
            return Some(pairs[i - 1].1.clone());
        }
        i = i - 1;
    }
    None
}

/// The configuration file named on the command line: `-f` first, then
/// `--config-file`, else `default`.
pub fn get_config_file_path(args_map: &Vec<(String, String)>, default: &String) -> (r: String)
    ensures
        r@ == config_path(pairs_view(args_map@), default@),
{
    let short = String::from_str("-f");
    match find_last(args_map, &short) {
        Some(p) => p,
        None => {
            let long = String::from_str("--config-file");
            match find_last(args_map, &long) {
                Some(p) => p,
                None => default.clone(),
            }
        },
    }
}

} // verus!
