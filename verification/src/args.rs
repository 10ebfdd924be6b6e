//! The command line: `<profile> [--print-noisy] [--wrap %command%]`.
use vstd::prelude::*;
use vstd::string::StringExecFns;
use crate::text::chars_of;

verus! {

pub struct CliArgs {
    /// The profile's file name: the name given, with `.json5` added unless it
    /// ends so already.
    pub profile_path: String,
    pub print_noisy: bool,
    /// The game command to run, from the arguments after `--wrap`.
    pub wrap_command: Option<Vec<String>>,
}

pub enum ArgsError {
    /// An argument that starts with `-` and is no known flag.
    UnknownFlag(String),
    /// No profile was named.
    Usage,
}

/// The arguments read in order: flags, the profile name (the first other
/// argument; later ones are ignored), and everything after `--wrap` as the
/// command. The error is the first unknown flag.
pub open spec fn scan_args(args: Seq<Seq<char>>, i: int, profile: Option<Seq<char>>, noisy: bool) -> Result<
    (Option<Seq<char>>, bool, Option<Seq<Seq<char>>>),
    Seq<char>,
>
    decreases args.len() - i,
{
    if i >= args.len() {
        Ok((profile, noisy, None))
    } else {
        let a = args[i];
        if a == "--print-noisy"@ {
            scan_args(args, i + 1, profile, true)
        } else if a == "--wrap"@ {
            Ok((profile, noisy, Some(args.subrange(i + 1, args.len() as int))))
        } else if a.len() > 0 && a[0] == '-' {
            Err(a)
        } else {
            scan_args(args, i + 1, if profile is None { Some(a) } else { profile }, noisy)
        }
    }
}

/// The profile file named `name`: `.json5` is added unless already there.
pub open spec fn profile_file(name: Seq<char>) -> Seq<char> {
    if name.len() >= 6 && name.subrange(name.len() - 6, name.len() as int) == ".json5"@ {
        name
    } else {
        name + ".json5"@
    }
}

pub open spec fn string_views(s: Seq<String>) -> Seq<Seq<char>> {
    s.map_values(|a: String| a@)
}

fn ends_with_json5(name: &String) -> (r: bool)
    ensures
        r == (name@.len() >= 6 && name@.subrange(name@.len() - 6, name@.len() as int) == ".json5"@),
{
    let s = chars_of(name.as_str());
    let suffix = chars_of(".json5");
    proof {
        reveal_strlit(".json5");
    }
    if s.len() < 6 {
        return false;
    }
    let base = s.len() - 6;
    let mut k: usize = 0;
    while k < 6
        invariant
            k <= 6,
            s@.len() >= 6,
            base == s@.len() - 6,
            base + 6 == s.len(),
            s@ == name@,
            suffix@ == ".json5"@,
            suffix@.len() == 6,
            forall|m: int| 0 <= m < k ==> s@[base + m] == suffix@[m],
        decreases 6 - k,
    {
        if s[base + k] != suffix[k] {
            assert(s@.subrange(base as int, s@.len() as int)[k as int] != ".json5"@[k as int]);
            return false;
        }
        k = k + 1;
    }
    assert(s@.subrange(base as int, s@.len() as int) =~= ".json5"@);
    true
}

/// Reads the arguments after the program name.
pub fn parse_args(args: Vec<String>) -> (r: Result<CliArgs, ArgsError>)
    ensures
        match scan_args(string_views(args@), 0, None, false) {
            Err(a) => r matches Err(ArgsError::UnknownFlag(f)) && f@ == a,
            Ok((None, _, _)) => r matches Err(ArgsError::Usage),
            Ok((Some(p), noisy, wrap)) => r matches Ok(c) && c.profile_path@ == profile_file(p)
                && c.print_noisy == noisy && match wrap {
                Some(w) => c.wrap_command matches Some(cmd) && string_views(cmd@) == w,
                None => c.wrap_command is None,
            },
        },
{
    let ghost sv = string_views(args@);
    let mut profile_name: Option<String> = None;
    let mut print_noisy = false;
    let mut wrap_command: Option<Vec<String>> = None;
    let noisy_flag = String::from_str("--print-noisy");
    let wrap_flag = String::from_str("--wrap");
    let mut i: usize = 0;
    while i < args.len()
        invariant_except_break
            i <= args@.len(),
            sv == string_views(args@),
            noisy_flag@ == "--print-noisy"@,
            wrap_flag@ == "--wrap"@,
            wrap_command is None,
            scan_args(sv, 0, None, false) == scan_args(
                sv,
                i as int,
                match profile_name {
                    Some(p) => Some(p@),
                    None => None,
                },
                print_noisy,
            ),
        ensures
            sv == string_views(args@),
            scan_args(sv, 0, None, false) == Ok::<(Option<Seq<char>>, bool, Option<Seq<Seq<char>>>), Seq<char>>(
                (
                    match profile_name {
                        Some(p) => Some(p@),
                        None => None,
                    },
                    print_noisy,
                    match wrap_command {
                        Some(w) => Some(string_views(w@)),
                        None => None,
                    },
                ),
            ),
        decreases args@.len() - i,
    {
        let arg = &args[i];
        assert(sv[i as int] == arg@);
        if *arg == noisy_flag {
            print_noisy = true;
        } else if *arg == wrap_flag {
            let mut rest: Vec<String> = Vec::new();
            let mut j = i + 1;
            while j < args.len()
                invariant
                    i < j <= args@.len(),
                    string_views(rest@) == sv.subrange(i + 1, j as int),
                    sv == string_views(args@),
                decreases args@.len() - j,
            {
                let x = args[j].clone();
                assert(x@ == sv[j as int]);
                let ghost before = rest@;
                rest.push(x);
                assert(string_views(rest@) =~= string_views(before).push(x@));
                j = j + 1;
                assert(string_views(rest@) =~= sv.subrange(i + 1, j as int));
            }
            wrap_command = Some(rest);
            break ;
        } else {
            let cs = chars_of(arg.as_str());
            if cs.len() > 0 && cs[0] == '-' {
                return Err(ArgsError::UnknownFlag(arg.clone()));
            }
            if profile_name.is_none() {
                profile_name = Some(arg.clone());
            }
        }
        i = i + 1;
    }
    let name = match profile_name {
        Some(n) => n,
        None => {
            return Err(ArgsError::Usage);
        },
    };
    let profile_path = if ends_with_json5(&name) {
        name
    } else {
        name.concat(".json5")
    };
    Ok(CliArgs { profile_path, print_noisy, wrap_command })
}

/// A profile named with or without its `.json5` ending is the same file.
pub proof fn lemma_profile_name_with_or_without_ending(name: Seq<char>)
    requires
        !(name.len() >= 6 && name.subrange(name.len() - 6, name.len() as int) == ".json5"@),
    ensures
        profile_file(name) == profile_file(name + ".json5"@),
{
    reveal_strlit(".json5");
    let full = name + ".json5"@;
    assert(full.subrange(full.len() - 6, full.len() as int) =~= ".json5"@);
}

/// An argument that names a file rather than a flag: it does not start with `-`.
pub open spec fn is_plain(a: Seq<char>) -> bool {
    !(a.len() > 0 && a[0] == '-')
}

proof fn lemma_scan_from(args: Seq<Seq<char>>, w: int, i: int, profile: Option<Seq<char>>, noisy: bool)
    requires
        0 <= i <= w <= args.len(),
        w < args.len() ==> args[w] == "--wrap"@,
        forall|j: int| i <= j < w ==> args[j] != "--wrap"@,
        forall|j: int| i <= j < w ==> is_plain(#[trigger] args[j]) || args[j] == "--print-noisy"@,
    ensures
        scan_args(args, i, profile, noisy) matches Ok((p, n, wrap)) && ({
            &&& n == (noisy || exists|j: int| i <= j < w && #[trigger] args[j] == "--print-noisy"@)
            &&& wrap == (if w < args.len() {
                Some(args.subrange(w + 1, args.len() as int))
            } else {
                None::<Seq<Seq<char>>>
            })
            &&& (profile is Some ==> p == profile)
            &&& (profile is None ==> (p is Some <==> exists|j: int| i <= j < w && is_plain(#[trigger] args[j])))
            &&& (profile is None && p is Some ==> exists|j: int|
                i <= j < w && #[trigger] args[j] == p->Some_0 && is_plain(args[j]) && forall|q: int|
                    i <= q < j ==> !is_plain(#[trigger] args[q]))
        }),
    decreases w - i,
{
    reveal_strlit("--print-noisy");
    reveal_strlit("--wrap");
    if i < w {
        let a = args[i];
        if a == "--print-noisy"@ {
            lemma_scan_from(args, w, i + 1, profile, true);
            assert(!is_plain(a));
        } else {
            assert(a != "--wrap"@);
            assert(is_plain(a));
            assert(!(a.len() > 0 && a[0] == '-'));
            let np = if profile is None { Some(a) } else { profile };
            lemma_scan_from(args, w, i + 1, np, noisy);
            if profile is None {
                let r = scan_args(args, i, profile, noisy);
                assert(r == scan_args(args, i + 1, Some(a), noisy));
            }
        }
    }
}

/// The command line read as it is written: each flag stands alone and takes
/// no neighbour with it. Up to the first `--wrap` (at `w`, or the end), where
/// every argument is `--print-noisy` or no flag at all, the profile is the
/// first argument that is no flag, `--print-noisy` is on exactly when it
/// appears there, and the command is everything after `--wrap`.
pub proof fn lemma_arguments_read_in_place(args: Seq<Seq<char>>, w: int)
    requires
        0 <= w <= args.len(),
        w < args.len() ==> args[w] == "--wrap"@,
        forall|j: int| 0 <= j < w ==> args[j] != "--wrap"@,
        forall|j: int| 0 <= j < w ==> is_plain(#[trigger] args[j]) || args[j] == "--print-noisy"@,
    ensures
        scan_args(args, 0, None, false) matches Ok((p, n, wrap)) && ({
            &&& n == exists|j: int| 0 <= j < w && #[trigger] args[j] == "--print-noisy"@
            &&& wrap == (if w < args.len() {
                Some(args.subrange(w + 1, args.len() as int))
            } else {
                None::<Seq<Seq<char>>>
            })
            &&& (p is Some <==> exists|j: int| 0 <= j < w && is_plain(#[trigger] args[j]))
            &&& (p is Some ==> exists|j: int|
                0 <= j < w && #[trigger] args[j] == p->Some_0 && forall|q: int| 0 <= q < j ==> !is_plain(#[trigger] args[q]))
        }),
{
    lemma_scan_from(args, w, 0, None, false);
}

/// The first argument that starts with `-` and is no known flag, before any
/// `--wrap`, is refused, wherever the flags before it stand.
pub proof fn lemma_unknown_flag_refused(args: Seq<Seq<char>>, u: int)
    requires
        0 <= u < args.len(),
        !is_plain(args[u]),
        args[u] != "--print-noisy"@,
        args[u] != "--wrap"@,
        forall|j: int| 0 <= j < u ==> is_plain(#[trigger] args[j]) || args[j] == "--print-noisy"@,
    ensures
        scan_args(args, 0, None, false) == Err::<(Option<Seq<char>>, bool, Option<Seq<Seq<char>>>), Seq<char>>(args[u]),
{
    lemma_scan_to_unknown(args, u, 0, None, false);
}

proof fn lemma_scan_to_unknown(args: Seq<Seq<char>>, u: int, i: int, profile: Option<Seq<char>>, noisy: bool)
    requires
        0 <= i <= u < args.len(),
        !is_plain(args[u]),
        args[u] != "--print-noisy"@,
        args[u] != "--wrap"@,
        forall|j: int| i <= j < u ==> is_plain(#[trigger] args[j]) || args[j] == "--print-noisy"@,
    ensures
        scan_args(args, i, profile, noisy) == Err::<(Option<Seq<char>>, bool, Option<Seq<Seq<char>>>), Seq<char>>(args[u]),
    decreases u - i,
{
    reveal_strlit("--print-noisy");
    reveal_strlit("--wrap");
    if i < u {
        let a = args[i];
        if a == "--print-noisy"@ {
            lemma_scan_to_unknown(args, u, i + 1, profile, true);
        } else {
            assert(is_plain(a));
            assert(a != "--wrap"@) by {
                assert("--wrap"@[0] == '-');
            }
            lemma_scan_to_unknown(args, u, i + 1, if profile is None { Some(a) } else { profile }, noisy);
        }
    }
}

} // verus!
