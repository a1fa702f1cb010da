//! Scan configuration and command-line parsing.

use vstd::prelude::*;

verus! {

/// Mathematical model of a [`Config`]: every field as a plain value.
pub ghost struct ConfigV {
    pub target_path: Seq<Seq<char>>,
    pub duration_days: u64,
    pub change_days: bool,
    pub do_intr: bool,
    pub assume_yes: bool,
    pub recursion: bool,
    pub verbose: bool,
    pub dry_run: bool,
    pub remove_dir: bool,
    pub remove_empty: bool,
}

/// Immutable scan parameters: the root directories to scan, the age threshold
/// in days, and the behaviour flags.
#[derive(Clone)]
pub struct Config {
    target_path: Vec<String>,
    duration_days: u64,
    change_days: bool,
    do_intr: bool,
    assume_yes: bool,
    recursion: bool,
    verbose: bool,
    dry_run: bool,
    remove_dir: bool,
    remove_empty: bool,
}

impl View for Config {
    type V = ConfigV;

    closed spec fn view(&self) -> ConfigV {
        ConfigV {
            target_path: self.target_path@.map_values(|s: String| s@),
            duration_days: self.duration_days,
            change_days: self.change_days,
            do_intr: self.do_intr,
            assume_yes: self.assume_yes,
            recursion: self.recursion,
            verbose: self.verbose,
            dry_run: self.dry_run,
            remove_dir: self.remove_dir,
            remove_empty: self.remove_empty,
        }
    }
}

/// The configuration before any argument is applied: no roots yet, a 60-day
/// threshold, every flag off.
pub open spec fn initial_config() -> ConfigV {
    ConfigV {
        target_path: Seq::empty(),
        duration_days: 60,
        change_days: false,
        do_intr: false,
        assume_yes: false,
        recursion: false,
        verbose: false,
        dry_run: false,
        remove_dir: false,
        remove_empty: false,
    }
}

impl Config {
    pub fn new() -> (r: Config)
        ensures
            r@ == initial_config(),
    {
        let r = Config {
            target_path: Vec::new(),
            duration_days: 60,
            change_days: false,
            do_intr: false,
            assume_yes: false,
            recursion: false,
            verbose: false,
            dry_run: false,
            remove_dir: false,
            remove_empty: false,
        };
        proof {
            assert(r@.target_path =~= initial_config().target_path);
            assert(r@ =~= initial_config());
        }
        r
    }

    pub fn get_duration_days(&self) -> (r: u64)
        ensures
            r == self@.duration_days,
    {
        self.duration_days
    }

    pub fn get_target_path(&self) -> (r: Vec<String>)
        ensures
            r@.map_values(|s: String| s@) == self@.target_path,
    {
        self.target_path.clone()
    }

    pub fn do_intr(&self) -> (r: bool)
        ensures
            r == self@.do_intr,
    {
        self.do_intr
    }

    pub fn assume_yes(&self) -> (r: bool)
        ensures
            r == self@.assume_yes,
    {
        self.assume_yes
    }

    pub fn recursion(&self) -> (r: bool)
        ensures
            r == self@.recursion,
    {
        self.recursion
    }

    pub fn verbose(&self) -> (r: bool)
        ensures
            r == self@.verbose,
    {
        self.verbose
    }

    pub fn dry_run(&self) -> (r: bool)
        ensures
            r == self@.dry_run,
    {
        self.dry_run
    }

    pub fn remove_dir(&self) -> (r: bool)
        ensures
            r == self@.remove_dir,
    {
        self.remove_dir
    }

    pub fn remove_empty(&self) -> (r: bool)
        ensures
            r == self@.remove_empty,
    {
        self.remove_empty
    }
}

/// Character-for-character equality of two string slices.
pub fn str_eq(a: &str, b: &str) -> (r: bool)
    ensures
        r == (a@ == b@),
{
    let na: usize = a.unicode_len();
    let nb: usize = b.unicode_len();
    if na != nb {
        proof {
            assert(a@ != b@) by {
                assert(a@.len() != b@.len());
            }
        }
        return false;
    }
    let mut i: usize = 0;
    while i < na
        invariant
            na == a@.len(),
            na == b@.len(),
            i <= na,
            forall|j: int| 0 <= j < i ==> a@[j] == b@[j],
        decreases na - i,
    {
        if a.get_char(i) != b.get_char(i) {
            return false;
        }
        i = i + 1;
    }
    proof {
        assert(a@ =~= b@);
    }
    true
}

/// The effect of one short-option character on the configuration, or `None`
/// for a character that is not an option.
pub open spec fn apply_flag(cfg: ConfigV, c: char) -> Option<ConfigV> {
    if c == 'd' {
        Some(ConfigV { change_days: true, ..cfg })
    } else if c == 'r' {
        Some(ConfigV { recursion: true, ..cfg })
    } else if c == 'i' {
        Some(ConfigV { do_intr: true, ..cfg })
    } else if c == 'y' {
        Some(ConfigV { assume_yes: true, ..cfg })
    } else if c == 'v' {
        Some(ConfigV { verbose: true, ..cfg })
    } else if c == 'n' {
        Some(ConfigV { dry_run: true, ..cfg })
    } else {
        None
    }
}

/// The effect of a long option (a whole argument such as `--remove-dir`), or
/// `None` for an unknown one.
pub open spec fn long_option_spec(arg: Seq<char>, cfg: ConfigV) -> Option<ConfigV> {
    if arg == "--remove-dir"@ {
        Some(ConfigV { remove_dir: true, ..cfg })
    } else if arg == "--remove-empty"@ {
        Some(ConfigV { remove_empty: true, ..cfg })
    } else {
        None
    }
}

/// The effect of the short-option characters `arg[i..]`: flags are applied one
/// by one; a `-` hands the whole argument to the long-option rule and stops.
pub open spec fn get_option_from(arg: Seq<char>, cfg: ConfigV, i: int) -> Option<ConfigV>
    decreases arg.len() - i,
{
    if i < 0 || i >= arg.len() {
        Some(cfg)
    } else if arg[i] == '-' {
        long_option_spec(arg, cfg)
    } else {
        match apply_flag(cfg, arg[i]) {
            Some(c) => get_option_from(arg, c, i + 1),
            None => None,
        }
    }
}

/// The effect of one option argument (leading `-` already seen) on the
/// configuration: `None` means the argument is rejected.
pub open spec fn get_option_spec(arg: Seq<char>, cfg: ConfigV) -> Option<ConfigV> {
    get_option_from(arg, cfg, 1)
}

/// Recognizes the long options `--remove-dir` and `--remove-empty` and sets
/// the matching flag; any other argument is rejected.
pub fn analyze_long_option(arg: &String, config: &mut Config) -> (r: Result<(), String>)
    ensures
        match long_option_spec(arg@, old(config)@) {
            Some(c) => r is Ok && final(config)@ == c,
            None => r is Err && final(config)@ == old(config)@,
        },
{
    proof {
        reveal_strlit("--remove-dir");
        reveal_strlit("--remove-empty");
    }
    if str_eq(arg.as_str(), "--remove-dir") {
        config.remove_dir = true;
        Ok(())
    } else if str_eq(arg.as_str(), "--remove-empty") {
        config.remove_empty = true;
        Ok(())
    } else {
        Err(String::from_str("rm-old: illegal option: ").concat(arg.as_str()))
    }
}

pub open spec fn is_digit(c: char) -> bool {
    '0' <= c && c <= '9'
}

pub open spec fn digit_val(c: char) -> int {
    c as int - '0' as int
}

/// The number a sequence of decimal digits denotes.
pub open spec fn digits_val(s: Seq<char>) -> int
    decreases s.len(),
{
    if s.len() == 0 {
        0
    } else {
        digits_val(s.drop_last()) * 10 + digit_val(s.last())
    }
}

/// A decimal argument with an optional leading `+` stripped.
pub open spec fn num_body(s: Seq<char>) -> Seq<char> {
    if s.len() > 0 && s[0] == '+' {
        s.drop_first()
    } else {
        s
    }
}

pub open spec fn all_digits(s: Seq<char>) -> bool {
    forall|i: int| 0 <= i < s.len() ==> is_digit(#[trigger] s[i])
}

/// The value a decimal argument denotes: an optional leading `+`, then at
/// least one digit, and a value that fits in 64 bits; anything else is `None`.
pub open spec fn parse_u64_spec(s: Seq<char>) -> Option<u64> {
    if num_body(s).len() > 0 && all_digits(num_body(s)) && digits_val(num_body(s)) <= u64::MAX {
        Some(digits_val(num_body(s)) as u64)
    } else {
        None
    }
}

proof fn lemma_digits_val_nonneg(s: Seq<char>)
    requires
        all_digits(s),
    ensures
        digits_val(s) >= 0,
    decreases s.len(),
{
    if s.len() > 0 {
        lemma_digits_val_nonneg(s.drop_last());
    }
}

/// A prefix of a digit string never denotes more than the whole string.
proof fn lemma_digits_val_prefix_le(s: Seq<char>, i: int)
    requires
        0 <= i <= s.len(),
        all_digits(s),
    ensures
        digits_val(s.take(i)) <= digits_val(s),
    decreases s.len() - i,
{
    if i < s.len() {
        lemma_digits_val_prefix_le(s, i + 1);
        let t = s.take(i + 1);
        assert(t.drop_last() =~= s.take(i));
        assert(digits_val(t) == digits_val(s.take(i)) * 10 + digit_val(t.last()));
        lemma_digits_val_nonneg(s.take(i));
        assert(digit_val(t.last()) >= 0);
        assert(digits_val(s.take(i)) <= digits_val(s.take(i)) * 10 + digit_val(t.last()));
    } else {
        assert(s.take(i) =~= s);
    }
}

/// Reads `arg` as an unsigned decimal number (an optional leading `+`, then
/// digits); rejects anything else and values over `u64::MAX`.
pub fn parse_u64(arg: &String) -> (r: Option<u64>)
    ensures
        r == parse_u64_spec(arg@),
{
    let n: usize = arg.as_str().unicode_len();
    let start: usize = if n > 0 && arg.as_str().get_char(0) == '+' {
        1
    } else {
        0
    };
    let ghost body = num_body(arg@);
    proof {
        assert(body =~= arg@.subrange(start as int, n as int));
    }
    if start >= n {
        return None;
    }
    let mut acc: u64 = 0;
    let mut i: usize = start;
    while i < n
        invariant
            n == arg@.len(),
            start <= i <= n,
            body == arg@.subrange(start as int, n as int),
            start == (if arg@.len() > 0 && arg@[0] == '+' { 1int } else { 0int }),
            forall|j: int| start <= j < i ==> is_digit(#[trigger] arg@[j]),
            acc == digits_val(body.take(i - start)),
        decreases n - i,
    {
        let c: char = arg.as_str().get_char(i);
        if c < '0' || c > '9' {
            proof {
                assert(num_body(arg@) =~= body);
                assert(body[i - start] == arg@[i as int]);
                assert(!is_digit(body[i - start]));
                assert(!all_digits(num_body(arg@)));
            }
            return None;
        }
        let d: u64 = (c as u32 as u64) - 48;
        assert(d == digit_val(arg@[i as int])) by {
            assert(is_digit(arg@[i as int]));
        }
        let ghost pre = body.take(i - start);
        let ghost cur = body.take(i + 1 - start);
        proof {
            assert(cur.drop_last() =~= pre);
            assert(cur.last() == body[i - start]);
            assert(digits_val(cur) == acc * 10 + d);
        }
        if acc > (u64::MAX - d) / 10 {
            // The digits already read overflow, and more digits only grow
            // the value.
            proof {
                assert(acc * 10 + d > u64::MAX) by (nonlinear_arith)
                    requires
                        acc > (u64::MAX - d) / 10,
                        0 <= d <= 9,
                {}
                assert(num_body(arg@) =~= body);
                if all_digits(body) {
                    lemma_digits_val_prefix_le(body, i + 1 - start);
                    assert(digits_val(num_body(arg@)) > u64::MAX);
                }
                assert(parse_u64_spec(arg@) is None);
            }
            return None;
        }
        proof {
            assert(acc * 10 + d <= u64::MAX) by (nonlinear_arith)
                requires
                    acc <= (u64::MAX - d) / 10,
                    0 <= d <= 9,
            {}
        }
        acc = acc * 10 + d;
        i = i + 1;
    }
    proof {
        assert(num_body(arg@) =~= body);
        assert(body.take(n - start) =~= body);
        assert(all_digits(body));
        lemma_digits_val_nonneg(body);
    }
    Some(acc)
}

/// Applies every short-option character of `arg` (after its leading `-`) to
/// the configuration; a `--...` argument is handed to the long-option rule.
/// On an unknown option the argument is rejected; flags read before the
/// offending character keep their new values.
pub fn get_option(arg: &String, config: &mut Config) -> (r: Result<(), String>)
    requires
        arg@.len() >= 1,
    ensures
        match get_option_spec(arg@, old(config)@) {
            Some(c) => r is Ok && final(config)@ == c,
            None => r is Err,
        },
{
    let n: usize = arg.as_str().unicode_len();
    let mut i: usize = 1;
    while i < n
        invariant
            n == arg@.len(),
            1 <= i <= n,
            get_option_spec(arg@, old(config)@) == get_option_from(arg@, config@, i as int),
        decreases n - i,
    {
        let c: char = arg.as_str().get_char(i);
        if c == '-' {
            let r = analyze_long_option(arg, config);
            match r {
                Ok(()) => {
                    return Ok(());
                },
                Err(msg) => {
                    return Err(msg);
                },
            }
        } else if c == 'd' {
            config.change_days = true;
        } else if c == 'r' {
            config.recursion = true;
        } else if c == 'i' {
            config.do_intr = true;
        } else if c == 'y' {
            config.assume_yes = true;
        } else if c == 'v' {
            config.verbose = true;
        } else if c == 'n' {
            config.dry_run = true;
        } else {
            return Err(String::from_str("rm-old: illegal option in: ").concat(arg.as_str()));
        }
        i = i + 1;
    }
    Ok(())
}

/// The root path an accepted directory argument contributes: an absolute path
/// is kept as it is; a relative one loses a trailing `/` and gains a `./`
/// prefix.
pub open spec fn normalize_path(a: Seq<char>) -> Seq<char> {
    if a.len() > 0 && a[0] == '/' {
        a
    } else if a.len() > 0 && a.last() == '/' {
        "./"@ + a.drop_last()
    } else {
        "./"@ + a
    }
}

/// The effect of a path argument: `is_dir` says whether the argument names an
/// existing directory; if it does not, the argument is rejected.
pub open spec fn get_path_spec(a: Seq<char>, is_dir: bool, cfg: ConfigV) -> Option<ConfigV> {
    if is_dir {
        Some(ConfigV { target_path: cfg.target_path.push(normalize_path(a)), ..cfg })
    } else {
        None
    }
}

/// Records `arg` as a scan root in its normalized form. `is_dir` is the
/// caller's answer to whether `arg` names an existing directory; a negative
/// answer rejects the argument.
pub fn get_path(arg: &String, is_dir: bool, config: &mut Config) -> (r: Result<(), String>)
    requires
        arg@.len() >= 1,
    ensures
        match get_path_spec(arg@, is_dir, old(config)@) {
            Some(c) => r is Ok && final(config)@ == c,
            None => r is Err && final(config)@ == old(config)@,
        },
{
    if !is_dir {
        return Err(String::from_str("rm-old: illegal path: ").concat(arg.as_str()));
    }
    let n: usize = arg.as_str().unicode_len();
    let normalized: String = if arg.as_str().get_char(0) == '/' {
        let c = arg.clone();
        proof {
            assert(c@ == normalize_path(arg@));
        }
        c
    } else if arg.as_str().get_char(n - 1) == '/' {
        let stripped = arg.as_str().substring_char(0, n - 1);
        proof {
            assert(stripped@ =~= arg@.drop_last());
        }
        String::from_str("./").concat(stripped)
    } else {
        String::from_str("./").concat(arg.as_str())
    };
    let ghost old_view = config@;
    config.target_path.push(normalized);
    proof {
        assert(config@.target_path =~= old_view.target_path.push(normalize_path(arg@)));
        assert(config@ =~= get_path_spec(arg@, is_dir, old_view)->0);
    }
    Ok(())
}

/// Relies on `std::path::Path::is_dir`: whether the argument names a
/// directory that exists on the real filesystem. The answer depends on the
/// machine's state, so nothing is promised of it.
#[verifier::external_body]
fn probe_is_dir(path: &String) -> bool {
    std::path::Path::new(path.as_str()).is_dir()
}

/// The usage text shown for `-h` and `--help`.
pub fn show_help() -> (r: String)
    ensures
        r@ == "rm-old: remove the old files in dir.
    -r              : recursion. target dir in dir.
    -i              : ask each file when remove.
    -y              : assume yes.
    -d [days]       : specify duration of day.(default is 60 days)
    -v              : verbose.
    -n              : dry run. not a remove, only show log.
    --remove-dir    : remove directory.
    --remove-empty  : remove empty dir.
    -h, --help      : show help.(this!)
    "@,
{
    String::from_str("rm-old: remove the old files in dir.
    -r              : recursion. target dir in dir.
    -i              : ask each file when remove.
    -y              : assume yes.
    -d [days]       : specify duration of day.(default is 60 days)
    -v              : verbose.
    -n              : dry run. not a remove, only show log.
    --remove-dir    : remove directory.
    --remove-empty  : remove empty dir.
    -h, --help      : show help.(this!)
    ")
}

/// The effect of one argument on the configuration built so far. `probe` is
/// the filesystem's answer for the path case; the other cases ignore it.
pub open spec fn parse_step(cfg: ConfigV, arg: Seq<char>, probe: bool) -> Option<ConfigV> {
    if arg == "--help"@ || arg == "-h"@ {
        None
    } else if !cfg.change_days && arg.len() > 0 && arg[0] == '-' {
        get_option_spec(arg, cfg)
    } else if cfg.change_days {
        match parse_u64_spec(arg) {
            Some(n) => Some(ConfigV { duration_days: n, change_days: false, ..cfg }),
            None => None,
        }
    } else {
        get_path_spec(arg, probe, cfg)
    }
}

/// The configuration after the arguments before index `i` (the one at index 0
/// is the program name and is skipped), given the filesystem's answers
/// `probes`, one per argument position.
pub open spec fn parse_upto(argv: Seq<Seq<char>>, probes: Seq<bool>, i: int) -> Option<ConfigV>
    decreases i,
{
    if i <= 1 {
        Some(initial_config())
    } else {
        match parse_upto(argv, probes, i - 1) {
            Some(c) => parse_step(c, argv[i - 1], probes[i - 1]),
            None => None,
        }
    }
}

/// The final checks after all arguments: a dangling `-d` is rejected, and a
/// run with no roots scans the current directory.
pub open spec fn parse_finish(o: Option<ConfigV>) -> Option<ConfigV> {
    match o {
        Some(c) => {
            if c.change_days {
                None
            } else if c.target_path.len() == 0 {
                Some(ConfigV { target_path: seq!["."@], ..c })
            } else {
                Some(c)
            }
        },
        None => None,
    }
}

/// What parsing an argument list means, given the filesystem's answers.
pub open spec fn parse_config_spec(argv: Seq<Seq<char>>, probes: Seq<bool>) -> Option<ConfigV> {
    parse_finish(parse_upto(argv, probes, argv.len() as int))
}

pub open spec fn arg_views(args: Seq<String>) -> Seq<Seq<char>> {
    args.map_values(|s: String| s@)
}

/// Whether `r` is what parsing `args` must return when the filesystem answers
/// the path probes with `probes`.
pub open spec fn parse_result_ok(args: Seq<String>, probes: Seq<bool>, r: Result<Config, String>) -> bool {
    match parse_config_spec(arg_views(args), probes) {
        Some(c) => r matches Ok(cfg) && cfg@ == c,
        None => r is Err,
    }
}

impl Config {
    /// Builds a configuration from command-line arguments (`args[0]` is the
    /// program name). Options may come in any order; a non-option argument is
    /// either the value of a preceding `-d` or a root directory, which is
    /// checked against the filesystem. The result is fixed by the argument
    /// list together with the filesystem's answers to those checks.
    pub fn parse_config(args: &[String]) -> (r: Result<Config, String>)
        requires
            args@.len() >= 1,
            forall|i: int| 1 <= i < args@.len() ==> (#[trigger] args@[i])@.len() >= 1,
        ensures
            exists|probes: Seq<bool>| #[trigger] parse_result_ok(args@, probes, r),
            r matches Ok(cfg) ==> cfg@.target_path.len() > 0 && !cfg@.change_days,
    {
        let mut config = Config::new();
        let ghost mut probes: Seq<bool> = seq![false];
        let n: usize = args.len();
        let mut k: usize = 1;
        proof {
            reveal_strlit("--help");
            reveal_strlit("-h");
        }
        while k < n
            invariant
                n == args@.len(),
                1 <= k <= n,
                probes.len() == k,
                forall|i: int| 1 <= i < args@.len() ==> (#[trigger] args@[i])@.len() >= 1,
                parse_upto(arg_views(args@), probes, k as int) == Some(config@),
            decreases n - k,
        {
            let arg = &args[k];
            proof {
                assert(arg_views(args@)[k as int] == arg@);
            }
            let is_help = str_eq(arg.as_str(), "--help") || str_eq(arg.as_str(), "-h");
            let ghost prev = config@;
            if is_help {
                let ghost probes0 = probes;
                proof {
                    probes = probes.push(false);
                    lemma_parse_upto_step(arg_views(args@), probes0, k as int, false);
                    lemma_parse_upto_frozen(arg_views(args@), probes, (k + 1) as int);
                }
                let res: Result<Config, String> = Err(show_help());
                proof {
                    assert(parse_result_ok(args@, probes, res));
                }
                return res;
            } else if !config.change_days && arg.as_str().get_char(0) == '-' {
                let ghost probes0 = probes;
                proof {
                    probes = probes.push(false);
                }
                match get_option(arg, &mut config) {
                    Ok(()) => {
                        proof {
                            lemma_parse_upto_step(arg_views(args@), probes0, k as int, false);
                        }
                    },
                    Err(err_msg) => {
                        proof {
                            lemma_parse_upto_step(arg_views(args@), probes0, k as int, false);
                            lemma_parse_upto_frozen(arg_views(args@), probes, (k + 1) as int);
                        }
                        let res: Result<Config, String> = Err(err_msg);
                        proof {
                            assert(parse_result_ok(args@, probes, res));
                        }
                        return res;
                    },
                }
            } else if config.change_days {
                let ghost probes0 = probes;
                proof {
                    probes = probes.push(false);
                }
                match parse_u64(arg) {
                    Some(num) => {
                        config.duration_days = num;
                        config.change_days = false;
                        proof {
                            lemma_parse_upto_step(arg_views(args@), probes0, k as int, false);
                        }
                    },
                    None => {
                        proof {
                            lemma_parse_upto_step(arg_views(args@), probes0, k as int, false);
                            lemma_parse_upto_frozen(arg_views(args@), probes, (k + 1) as int);
                        }
                        let res: Result<Config, String> = Err(
                            String::from_str("rm-old -d: Illegal value: ").concat(arg.as_str()),
                        );
                        proof {
                            assert(parse_result_ok(args@, probes, res));
                        }
                        return res;
                    },
                }
            } else {
                let is_dir = probe_is_dir(arg);
                let ghost probes0 = probes;
                proof {
                    probes = probes.push(is_dir);
                }
                match get_path(arg, is_dir, &mut config) {
                    Ok(()) => {
                        proof {
                            lemma_parse_upto_step(arg_views(args@), probes0, k as int, is_dir);
                        }
                    },
                    Err(err_msg) => {
                        proof {
                            lemma_parse_upto_step(arg_views(args@), probes0, k as int, is_dir);
                            lemma_parse_upto_frozen(arg_views(args@), probes, (k + 1) as int);
                        }
                        let res: Result<Config, String> = Err(err_msg);
                        proof {
                            assert(parse_result_ok(args@, probes, res));
                        }
                        return res;
                    },
                }
            }
            k = k + 1;
        }
        if config.change_days {
            let res: Result<Config, String> = Err(
                String::from_str("rm-old -d: Input duration days after -d."),
            );
            proof {
                assert(parse_result_ok(args@, probes, res));
            }
            return res;
        }
        if config.target_path.len() == 0 {
            let ghost before = config@;
            config.target_path.push(String::from_str("."));
            proof {
                reveal_strlit(".");
                assert(config@.target_path =~= before.target_path.push("."@));
                assert(config@.target_path =~= seq!["."@]);
                assert(config@ =~= ConfigV { target_path: seq!["."@], ..before });
            }
        }
        let res: Result<Config, String> = Ok(config);
        proof {
            assert(parse_result_ok(args@, probes, res));
        }
        res
    }
}

/// Once an argument is rejected, the later arguments and probe answers do not
/// matter.
proof fn lemma_parse_upto_frozen(argv: Seq<Seq<char>>, probes: Seq<bool>, i: int)
    requires
        1 <= i <= argv.len(),
        parse_upto(argv, probes, i) is None,
    ensures
        parse_upto(argv, probes, argv.len() as int) is None,
    decreases argv.len() - i,
{
    if i < argv.len() {
        lemma_parse_upto_frozen(argv, probes, i + 1);
    }
}

/// `parse_upto` only reads the probe answers before its index, so answers may
/// be appended freely.
proof fn lemma_parse_upto_probes_agree(argv: Seq<Seq<char>>, p1: Seq<bool>, p2: Seq<bool>, i: int)
    requires
        forall|j: int| 0 <= j < i && j < p1.len() && j < p2.len() ==> p1[j] == p2[j],
        i <= p1.len(),
        i <= p2.len(),
    ensures
        parse_upto(argv, p1, i) == parse_upto(argv, p2, i),
    decreases i,
{
    if i > 1 {
        lemma_parse_upto_probes_agree(argv, p1, p2, i - 1);
    }
}

/// Unfolds one parsing step: the state after `k + 1` arguments is the step
/// applied to the state after `k`, with the probe answer for position `k`
/// appended.
proof fn lemma_parse_upto_step(argv: Seq<Seq<char>>, probes: Seq<bool>, k: int, probe: bool)
    requires
        1 <= k < argv.len(),
        probes.len() == k,
    ensures
        parse_upto(argv, probes.push(probe), k + 1) == (match parse_upto(argv, probes, k) {
            Some(c) => parse_step(c, argv[k], probe),
            None => None,
        }),
{
    let p2 = probes.push(probe);
    lemma_parse_upto_probes_agree(argv, probes, p2, k);
    assert(p2[k] == probe);
}

} // verus!
