//! Which pager `v` launches. Policy mirrors bat and delta: `RAT_PAGER`,
//! then `PAGER`, then `less`; when the pager is less, `-R` is ensured so
//! SGR color passes through (`-K` joins it only when the user supplied no
//! arguments).

use vstd::prelude::*;

use crate::color::{env_lookup, MapEnv};
use crate::text::{
    chars_of, lowercase, lowercased, push_str, slice_of, str_eq, string_of, trim, trimmed, views,
};

verus! {

/// A resolved pager invocation.
#[derive(Debug, Clone, PartialEq, Eq)]
pub struct PagerCommand {
    pub bin: String,
    pub args: Vec<String>,
}

/// What `shell_words::split` makes of a value: the words a POSIX shell
/// would see, or `None` where the quoting does not close.
pub uninterp spec fn shell_split(s: Seq<char>) -> Option<Seq<Seq<char>>>;

/// `shell_words::split`, its parse error dropped (it always reads "missing
/// closing quote"). The splitting rules are
/// the crate's; the result is named, not restated.
#[verifier::external_body]
pub(crate) fn split_words(s: &str) -> (r: Option<Vec<String>>)
    ensures
        match r {
            Some(v) => shell_split(s@) == Some(views(v@)),
            None => shell_split(s@) is None,
        },
{
    shell_words::split(s).ok()
}

/// A candidate as plain values: the program and its arguments.
pub open spec fn pager_view(p: PagerCommand) -> (Seq<char>, Seq<Seq<char>>) {
    (p.bin@, views(p.args@))
}

/// The first of `RAT_PAGER`, `PAGER` that is set and not blank, trimmed.
pub open spec fn configured_pager(env: Seq<(String, String)>) -> Option<Seq<char>> {
    let a = env_lookup(env, "RAT_PAGER"@);
    let b = env_lookup(env, "PAGER"@);
    if a is Some && trimmed(a.unwrap()).len() > 0 {
        Some(trimmed(a.unwrap()))
    } else if b is Some && trimmed(b.unwrap()).len() > 0 {
        Some(trimmed(b.unwrap()))
    } else {
        None
    }
}

/// The index just past the last `/` or `\` in `s[..i]`, or 0.
pub open spec fn name_start(s: Seq<char>, i: int) -> int
    decreases i,
{
    if i <= 0 {
        0
    } else if s[i - 1] == '/' || s[i - 1] == '\\' {
        i
    } else {
        name_start(s, i - 1)
    }
}

/// `s` without a trailing `.exe`.
pub open spec fn without_exe(s: Seq<char>) -> Seq<char> {
    if s.len() >= 4 && s.subrange(s.len() - 4, s.len() as int) == ".exe"@ {
        s.subrange(0, s.len() - 4)
    } else {
        s
    }
}

/// The lowercased file name with any `.exe` dropped, so
/// `C:/tools/LESS.EXE` counts as less.
pub open spec fn base_of(bin: Seq<char>) -> Seq<char> {
    without_exe(lowercased(bin.subrange(name_start(bin, bin.len() as int), bin.len() as int)))
}

/// `root\System32\more.com`.
pub open spec fn more_path(root: Seq<char>) -> Seq<char> {
    root + "\\System32\\more.com"@
}

/// The Windows root directory: `SystemRoot` when set and not blank.
pub open spec fn system_root(env: Seq<(String, String)>) -> Seq<char> {
    match env_lookup(env, "SystemRoot"@) {
        Some(v) => if trimmed(v).len() > 0 {
            v
        } else {
            "C:\\WINDOWS"@
        },
        None => "C:\\WINDOWS"@,
    }
}

/// The default chain: less with color flags, then on Windows the stock
/// pager by its full path.
pub open spec fn default_chain(env: Seq<(String, String)>, on_windows: bool) -> Seq<(Seq<char>, Seq<Seq<char>>)> {
    let less = ("less"@, seq!["-R"@, "-K"@]);
    if on_windows {
        seq![less, (more_path(system_root(env)), Seq::empty())]
    } else {
        seq![less]
    }
}

/// The candidates before `-R` is ensured: a configured pager is trusted
/// as-is unless it does not split, splits to nothing, or is rat itself
/// (which would recurse).
pub open spec fn chosen_chain(env: Seq<(String, String)>, on_windows: bool) -> Seq<(Seq<char>, Seq<Seq<char>>)> {
    match configured_pager(env) {
        Some(v) => match shell_split(v) {
            Some(words) => if words.len() > 0 && base_of(words[0]) != "rat"@ {
                seq![(words[0], words.skip(1))]
            } else {
                default_chain(env, on_windows)
            },
            None => default_chain(env, on_windows),
        },
        None => default_chain(env, on_windows),
    }
}

/// A less invocation gains `-R` unless it already has it; one given no
/// arguments at all gets `-R -K`, as the default does.
pub open spec fn with_color(c: (Seq<char>, Seq<Seq<char>>)) -> (Seq<char>, Seq<Seq<char>>) {
    if base_of(c.0) == "less"@ && c.1.len() == 0 {
        (c.0, seq!["-R"@, "-K"@])
    } else if base_of(c.0) == "less"@ && !c.1.contains("-R"@) {
        (c.0, c.1.push("-R"@))
    } else {
        c
    }
}

/// A string vector's copy.
fn copy_strings(v: &Vec<String>, from: usize) -> (r: Vec<String>)
    requires
        from <= v@.len(),
    ensures
        views(r@) == views(v@).skip(from as int),
{
    let mut out: Vec<String> = Vec::new();
    let mut i: usize = from;
    while i < v.len()
        invariant
            from <= i <= v@.len(),
            views(out@) == views(v@).subrange(from as int, i as int),
        decreases v@.len() - i,
    {
        let w = v[i].clone();
        proof {
            assert(views(out@.push(w)) =~= views(out@).push(w@));
            assert(views(v@).subrange(from as int, i + 1) =~= views(v@).subrange(from as int, i as int).push(v@[i as int]@));
        }
        out.push(w);
        i += 1;
    }
    proof {
        assert(views(v@).subrange(from as int, v@.len() as int) =~= views(v@).skip(from as int));
    }
    out
}

/// The lowercased file name with any `.exe` suffix dropped.
fn base_name(bin: &str) -> (r: String)
    ensures
        r@ == base_of(bin@),
{
    let v = chars_of(bin);
    let mut i: usize = v.len();
    while i > 0 && v[i - 1] != '/' && v[i - 1] != '\\'
        invariant
            i <= v@.len(),
            name_start(v@, v@.len() as int) == name_start(v@, i as int),
        decreases i,
    {
        i -= 1;
    }
    let name = string_of(slice_of(&v, i, v.len()));
    let low = lowercase(name.as_str());
    let l = chars_of(low.as_str());
    let n = l.len();
    if n >= 4 && l[n - 4] == '.' && l[n - 3] == 'e' && l[n - 2] == 'x' && l[n - 1] == 'e' {
        proof {
            reveal_strlit(".exe");
            assert(l@.subrange(n - 4, n as int) =~= ".exe"@);
            assert(l@.subrange(0, n - 4) == l@.subrange(0, n - 4));
        }
        string_of(slice_of(&l, 0, n - 4))
    } else {
        proof {
            reveal_strlit(".exe");
            if n >= 4 && l@.subrange(n - 4, n as int) == ".exe"@ {
                assert(l@.subrange(n - 4, n as int)[0] == l@[n - 4]);
                assert(l@.subrange(n - 4, n as int)[1] == l@[n - 3]);
                assert(l@.subrange(n - 4, n as int)[2] == l@[n - 2]);
                assert(l@.subrange(n - 4, n as int)[3] == l@[n - 1]);
                assert(false);
            }
        }
        low
    }
}

/// A value that is set and not blank, trimmed.
fn non_blank(v: Option<String>) -> (r: Option<String>)
    ensures
        match v {
            Some(s) => if trimmed(s@).len() > 0 {
                r matches Some(t) && t@ == trimmed(s@)
            } else {
                r is None
            },
            None => r is None,
        },
{
    match v {
        Some(s) => {
            let t = trim(s.as_str());
            if t.as_str().is_empty() {
                None
            } else {
                Some(t)
            }
        },
        None => None,
    }
}

fn default_candidates(env: &MapEnv, on_windows: bool) -> (r: Vec<PagerCommand>)
    ensures
        r@.map_values(|p: PagerCommand| pager_view(p)) == default_chain(env.0@, on_windows),
{
    let mut args: Vec<String> = Vec::new();
    args.push("-R".to_string());
    args.push("-K".to_string());
    let less = PagerCommand { bin: "less".to_string(), args };
    proof {
        assert(views(less.args@) =~= seq!["-R"@, "-K"@]);
    }
    let mut out: Vec<PagerCommand> = Vec::new();
    out.push(less);
    if on_windows {
        let root = match env.lookup("SystemRoot") {
            Some(v) => if trim(v.as_str()).as_str().is_empty() {
                "C:\\WINDOWS".to_string()
            } else {
                v
            },
            None => "C:\\WINDOWS".to_string(),
        };
        proof {
            assert(root@ == system_root(env.0@));
        }
        let mut bin = root;
        push_str(&mut bin, "\\System32\\more.com");
        let more = PagerCommand { bin, args: Vec::new() };
        proof {
            assert(views(more.args@) =~= Seq::<Seq<char>>::empty());
        }
        out.push(more);
    }
    proof {
        assert(out@.map_values(|p: PagerCommand| pager_view(p)) =~= default_chain(env.0@, on_windows));
    }
    out
}

/// Whether `-R` is among the arguments.
fn has_color_flag(args: &Vec<String>) -> (r: bool)
    ensures
        r == views(args@).contains("-R"@),
{
    let mut i: usize = 0;
    while i < args.len()
        invariant
            i <= args@.len(),
            forall|j: int| 0 <= j < i ==> views(args@)[j] != "-R"@,
        decreases args@.len() - i,
    {
        if str_eq(args[i].as_str(), "-R") {
            proof {
                assert(views(args@)[i as int] == "-R"@);
            }
            return true;
        }
        i += 1;
    }
    false
}

/// Pager candidates in launch order, the first that spawns wins. A
/// configured pager is trusted as-is (a missing one should be noticed, not
/// papered over), while the default chain on Windows appends the stock
/// pager so `v` works without less installed.
pub fn resolve_with(env: &MapEnv, on_windows: bool) -> (r: Vec<PagerCommand>)
    ensures
        r@.map_values(|p: PagerCommand| pager_view(p)) == chosen_chain(env.0@, on_windows).map_values(
            |c: (Seq<char>, Seq<Seq<char>>)| with_color(c),
        ),
{
    let first = non_blank(env.lookup("RAT_PAGER"));
    let configured = match first {
        Some(v) => Some(v),
        None => non_blank(env.lookup("PAGER")),
    };
    let mut candidates = match configured {
        Some(value) => match split_words(value.as_str()) {
            Some(words) => if words.len() > 0 && !str_eq(base_name(words[0].as_str()).as_str(), "rat") {
                let bin = words[0].clone();
                let args = copy_strings(&words, 1);
                let mut one: Vec<PagerCommand> = Vec::new();
                one.push(PagerCommand { bin, args });
                proof {
                    assert(one@.map_values(|p: PagerCommand| pager_view(p)) =~= seq![(views(words@)[0], views(words@).skip(1))]);
                }
                one
            } else {
                default_candidates(env, on_windows)
            },
            None => default_candidates(env, on_windows),
        },
        None => default_candidates(env, on_windows),
    };
    let ghost chain = chosen_chain(env.0@, on_windows);
    proof {
        reveal_strlit("rat");
        assert(candidates@.map_values(|p: PagerCommand| pager_view(p)) == chain);
    }
    let n = candidates.len();
    let mut out: Vec<PagerCommand> = Vec::new();
    let mut i: usize = 0;
    while i < n
        invariant
            n == candidates@.len(),
            i <= n,
            candidates@.map_values(|p: PagerCommand| pager_view(p)) == chain,
            out@.len() == i,
            forall|j: int| 0 <= j < i ==> pager_view(#[trigger] out@[j]) == with_color(chain[j]),
        decreases n - i,
    {
        let bin = candidates[i].bin.clone();
        let mut args = copy_strings(&candidates[i].args, 0);
        proof {
            assert(views(candidates@[i as int].args@).skip(0) =~= views(candidates@[i as int].args@));
            assert(chain[i as int] == pager_view(candidates@[i as int]));
        }
        let is_less = str_eq(base_name(bin.as_str()).as_str(), "less");
        if is_less && args.len() == 0 {
            args.push("-R".to_string());
            args.push("-K".to_string());
            proof {
                assert(views(args@) =~= seq!["-R"@, "-K"@]);
            }
        } else if is_less && !has_color_flag(&args) {
            let ghost before = views(args@);
            args.push("-R".to_string());
            proof {
                assert(views(args@) =~= before.push("-R"@));
            }
        }
        proof {
            reveal_strlit("less");
        }
        out.push(PagerCommand { bin, args });
        i += 1;
    }
    proof {
        assert(out@.map_values(|p: PagerCommand| pager_view(p)) =~= chain.map_values(
            |c: (Seq<char>, Seq<Seq<char>>)| with_color(c),
        ));
    }
    out
}

/// Pager candidates on a system without the Windows stock pager.
pub fn resolve_pagers(env: &MapEnv) -> (r: Vec<PagerCommand>)
    ensures
        r@.map_values(|p: PagerCommand| pager_view(p)) == chosen_chain(env.0@, false).map_values(
            |c: (Seq<char>, Seq<Seq<char>>)| with_color(c),
        ),
{
    resolve_with(env, false)
}

} // verus!
