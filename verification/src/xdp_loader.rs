use vstd::prelude::*;
use vstd::string::StrSliceExecFns;
use crate::text::{trimmed, trim_str, str_eq};

verus! {

/// Where the loader pins its programs unless told otherwise.
pub const DEFAULT_PIN_BASE: &'static str = "/sys/fs/bpf/arc";

/// The loader's usage line.
pub fn usage() -> (r: String)
    ensures
        r@ == "usage: arc-xdp-loader attach --iface <ifname> [--mode driver|generic] [--pin-base <path>] | detach --iface <ifname> [--pin-base <path>]"@,
{
    String::from_str(
        "usage: arc-xdp-loader attach --iface <ifname> [--mode driver|generic] [--pin-base <path>] | detach --iface <ifname> [--pin-base <path>]",
    )
}

/// Index of the first argument equal to `key`, or `args.len()`.
pub open spec fn first_arg(args: Seq<String>, key: Seq<char>, i: int) -> int
    decreases args.len() - i,
{
    if i < 0 || i >= args.len() {
        args.len() as int
    } else if args[i]@ == key {
        i
    } else {
        first_arg(args, key, i + 1)
    }
}

proof fn lemma_first_arg(args: Seq<String>, key: Seq<char>, i: int)
    requires
        0 <= i <= args.len(),
    ensures
        i <= first_arg(args, key, i) <= args.len(),
    decreases args.len() - i,
{
    if i < args.len() && args[i]@ != key {
        lemma_first_arg(args, key, i + 1);
    }
}

/// Takes the value that follows the first `key` among the arguments out of
/// them; nothing changes when `key` is absent or last.
pub fn take_opt(args: &mut Vec<String>, key: &str) -> (r: Option<String>)
    ensures
        ({
            let idx = first_arg(old(args)@, key@, 0);
            if idx + 1 >= old(args)@.len() {
                r is None && final(args)@ == old(args)@
            } else {
                r matches Some(v) && v == old(args)@[idx + 1] && final(args)@ == old(args)@.remove(idx + 1)
            }
        }),
{
    let mut i: usize = 0;
    while i < args.len() && !str_eq(args[i].as_str(), key)
        invariant
            i <= args@.len(),
            args@ == old(args)@,
            first_arg(args@, key@, 0) == first_arg(args@, key@, i as int),
        decreases args@.len() - i,
    {
        i = i + 1;
    }
    proof {
        lemma_first_arg(args@, key@, 0);
    }
    if i >= args.len() || i + 1 >= args.len() {
        return None;
    }
    Some(args.remove(i + 1))
}

/// `s` without its trailing slashes.
pub open spec fn no_trailing_slash(s: Seq<char>) -> Seq<char>
    decreases s.len(),
{
    if s.len() > 0 && s.last() == '/' { no_trailing_slash(s.drop_last()) } else { s }
}

fn trim_end_slashes(s: &str) -> (r: &str)
    ensures
        r@ == no_trailing_slash(s@),
{
    let mut k = s.unicode_len();
    proof {
        assert(s@.take(k as int) =~= s@);
    }
    while k > 0 && s.get_char(k - 1) == '/'
        invariant
            k <= s@.len(),
            no_trailing_slash(s@) == no_trailing_slash(s@.take(k as int)),
        decreases k,
    {
        proof {
            assert(s@.take(k as int).drop_last() =~= s@.take(k as int - 1));
        }
        k = k - 1;
    }
    let r = s.substring_char(0, k);
    proof {
        assert(r@ =~= s@.take(k as int));
    }
    r
}

/// Where the programs are pinned under a pin base.
pub fn pin_progs(pin_base: &str) -> (r: String)
    ensures
        r@ == no_trailing_slash(pin_base@) + "/progs"@,
{
    let mut s = String::from_str(trim_end_slashes(pin_base));
    s.append("/progs");
    s
}

/// Where the XDP link is pinned under a pin base.
pub fn pin_link(pin_base: &str) -> (r: String)
    ensures
        r@ == no_trailing_slash(pin_base@) + "/progs/arc_xdp_link"@,
{
    let mut s = String::from_str(trim_end_slashes(pin_base));
    s.append("/progs/arc_xdp_link");
    s
}

/// A map's name without the `arc_` prefix it is compiled under.
pub fn logical_map_name(raw: &str) -> (r: String)
    ensures
        r@ == (if raw@.len() >= 4 && raw@.take(4) == "arc_"@ { raw@.skip(4) } else { raw@ }),
{
    proof {
        reveal_strlit("arc_");
    }
    let n = raw.unicode_len();
    if n >= 4 && raw.get_char(0) == 'a' && raw.get_char(1) == 'r' && raw.get_char(2) == 'c' && raw.get_char(3) == '_' {
        proof {
            assert(raw@.take(4) =~= "arc_"@);
            assert(raw@.subrange(4, n as int) =~= raw@.skip(4));
        }
        String::from_str(raw.substring_char(4, n))
    } else {
        proof {
            if n >= 4 && raw@.take(4) == "arc_"@ {
                assert(raw@.take(4)[0] == 'a');
                assert(raw@.take(4)[1] == 'r');
                assert(raw@.take(4)[2] == 'c');
                assert(raw@.take(4)[3] == '_');
            }
        }
        String::from_str(raw)
    }
}

/// The pin base to use: the command line's (trimmed), else the
/// environment's (trimmed), else the default; blank values do not count.
pub open spec fn pin_base_choice(cli: Option<Seq<char>>, env: Option<Seq<char>>) -> Seq<char> {
    match cli {
        Some(v) if trimmed(v).len() > 0 => trimmed(v),
        _ => match env {
            Some(v) if trimmed(v).len() > 0 => trimmed(v),
            _ => DEFAULT_PIN_BASE@,
        },
    }
}

/// Chooses the pin base from the command line and the environment.
pub fn resolve_pin_base(cli: Option<String>, env: Option<String>) -> (r: String)
    ensures
        r@ == pin_base_choice(
            match cli {
                Some(v) => Some(v@),
                None => None,
            },
            match env {
                Some(v) => Some(v@),
                None => None,
            },
        ),
{
    if let Some(v) = &cli {
        let t = trim_str(v.as_str());
        if t.unicode_len() > 0 {
            return String::from_str(t);
        }
    }
    if let Some(v) = &env {
        let t = trim_str(v.as_str());
        if t.unicode_len() > 0 {
            return String::from_str(t);
        }
    }
    String::from_str(DEFAULT_PIN_BASE)
}

} // verus!
