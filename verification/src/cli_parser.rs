//! A command-line argument parser: long options (`--name`, `--name=value`), clustered short
//! options (`-xv`, `-p80`, `-p 80`), flags, positional arguments and the `--` separator.

use vstd::prelude::*;
use crate::text::{chars_of, string_of, string_push};
use crate::cron::{find_char, first_index};

verus! {

#[derive(Debug, Clone, Copy, PartialEq, Eq, Structural)]
pub enum ArgType {
    Flag,
    Option,
}

#[derive(Debug, Clone)]
pub struct ArgConfig {
    pub key: String,
    pub short: Option<char>,
    pub long: Option<String>,
    pub arg_type: ArgType,
}

/// The outcome of a successful parse: the flags set (each once, in the order first seen),
/// the options with their last given values, and the positional arguments in order.
#[derive(Debug, Default, PartialEq)]
pub struct ParseResult {
    pub flags: Vec<String>,
    pub options: Vec<(String, String)>,
    pub positional: Vec<String>,
}

#[verifier::ext_equal]
pub struct ParseView {
    pub flags: Seq<Seq<char>>,
    pub options: Seq<(Seq<char>, Seq<char>)>,
    pub positional: Seq<Seq<char>>,
}

impl View for ParseResult {
    type V = ParseView;

    open spec fn view(&self) -> ParseView {
        ParseView {
            flags: self.flags@.map_values(|s: String| s@),
            options: self.options@.map_values(|e: (String, String)| (e.0@, e.1@)),
            positional: self.positional@.map_values(|s: String| s@),
        }
    }
}

pub open spec fn empty_view() -> ParseView {
    ParseView { flags: Seq::empty(), options: Seq::empty(), positional: Seq::empty() }
}

pub open spec fn add_flag(v: ParseView, k: Seq<char>) -> ParseView {
    if v.flags.contains(k) { v } else { ParseView { flags: v.flags.push(k), ..v } }
}

/// Position of the option named `k`, or -1.
pub open spec fn option_pos(opts: Seq<(Seq<char>, Seq<char>)>, k: Seq<char>) -> int
    decreases opts.len(),
{
    if opts.len() == 0 {
        -1
    } else if opts.last().0 == k {
        opts.len() - 1
    } else {
        option_pos(opts.drop_last(), k)
    }
}

pub open spec fn set_option(v: ParseView, k: Seq<char>, val: Seq<char>) -> ParseView {
    let p = option_pos(v.options, k);
    ParseView { options: if p >= 0 { v.options.update(p, (k, val)) } else { v.options.push((k, val)) }, ..v }
}

pub open spec fn add_positional(v: ParseView, a: Seq<char>) -> ParseView {
    ParseView { positional: v.positional.push(a), ..v }
}

/// Index of the last configuration with long name `name`, or -1.
pub open spec fn long_index(cfgs: Seq<ArgConfig>, name: Seq<char>) -> int
    decreases cfgs.len(),
{
    if cfgs.len() == 0 {
        -1
    } else if cfgs.last().long matches Some(l) && l@ == name {
        cfgs.len() - 1
    } else {
        long_index(cfgs.drop_last(), name)
    }
}

/// Index of the last configuration with short name `c`, or -1.
pub open spec fn short_index(cfgs: Seq<ArgConfig>, c: char) -> int
    decreases cfgs.len(),
{
    if cfgs.len() == 0 {
        -1
    } else if cfgs.last().short == Some(c) {
        cfgs.len() - 1
    } else {
        short_index(cfgs.drop_last(), c)
    }
}

/// Effect of the long option `--kv` at position `i`: the new result and whether the next
/// argument was consumed as its value.
pub open spec fn long_step(cfgs: Seq<ArgConfig>, args: Seq<Seq<char>>, i: int, kv: Seq<char>, acc: ParseView)
    -> Result<(ParseView, bool), Seq<char>>
{
    let eq = first_index(kv, '=');
    let key = if eq >= 0 { kv.take(eq) } else { kv };
    let ci = long_index(cfgs, key);
    if kv.len() == 0 {
        Err("Invalid argument: '--'"@)
    } else if ci < 0 {
        Err("Unknown option: --"@ + key)
    } else if cfgs[ci].arg_type == ArgType::Flag {
        if eq >= 0 {
            Err("Flag --"@ + key + " does not take a value"@)
        } else {
            Ok((add_flag(acc, cfgs[ci].key@), false))
        }
    } else if eq >= 0 {
        Ok((set_option(acc, cfgs[ci].key@, kv.skip(eq + 1)), false))
    } else if i + 1 < args.len() {
        Ok((set_option(acc, cfgs[ci].key@, args[i + 1]), true))
    } else {
        Err("Option --"@ + key + " requires a value"@)
    }
}

/// Effect of the short options `arg[j..]` of the cluster at position `i`.
pub open spec fn short_steps(cfgs: Seq<ArgConfig>, args: Seq<Seq<char>>, i: int, arg: Seq<char>, j: int, acc: ParseView)
    -> Result<(ParseView, bool), Seq<char>>
    decreases arg.len() - j,
{
    if j >= arg.len() {
        Ok((acc, false))
    } else {
        let c = arg[j];
        let ci = short_index(cfgs, c);
        if ci < 0 {
            Err("Unknown short option: -"@.push(c))
        } else if cfgs[ci].arg_type == ArgType::Flag {
            short_steps(cfgs, args, i, arg, j + 1, add_flag(acc, cfgs[ci].key@))
        } else if j + 1 < arg.len() {
            Ok((set_option(acc, cfgs[ci].key@, arg.skip(j + 1)), false))
        } else if i + 1 < args.len() {
            Ok((set_option(acc, cfgs[ci].key@, args[i + 1]), true))
        } else {
            Err("Option -"@.push(c) + " requires a value"@)
        }
    }
}

pub open spec fn is_long(arg: Seq<char>) -> bool {
    arg.len() >= 2 && arg[0] == '-' && arg[1] == '-'
}

pub open spec fn is_short(arg: Seq<char>) -> bool {
    arg.len() > 1 && arg[0] == '-'
}

/// The result of parsing `args[i..]` into `acc`.
pub open spec fn parse_from(cfgs: Seq<ArgConfig>, args: Seq<Seq<char>>, i: int, acc: ParseView, positional_only: bool)
    -> Result<ParseView, Seq<char>>
    decreases args.len() + 1 - i,
{
    if i < 0 || i >= args.len() {
        Ok(acc)
    } else {
        let arg = args[i];
        if positional_only {
            parse_from(cfgs, args, i + 1, add_positional(acc, arg), true)
        } else if arg == seq!['-', '-'] {
            parse_from(cfgs, args, i + 1, acc, true)
        } else if is_long(arg) {
            match long_step(cfgs, args, i, arg.skip(2), acc) {
                Err(e) => Err(e),
                Ok((a, used)) => parse_from(cfgs, args, i + 1 + if used { 1int } else { 0int }, a, false),
            }
        } else if is_short(arg) {
            match short_steps(cfgs, args, i, arg, 1, acc) {
                Err(e) => Err(e),
                Ok((a, used)) => parse_from(cfgs, args, i + 1 + if used { 1int } else { 0int }, a, false),
            }
        } else {
            parse_from(cfgs, args, i + 1, add_positional(acc, arg), false)
        }
    }
}

pub struct CliParser {
    configs: Vec<ArgConfig>,
}

impl View for CliParser {
    type V = Seq<ArgConfig>;

    closed spec fn view(&self) -> Seq<ArgConfig> {
        self.configs@
    }
}

/// Whether `a` spells `b[lo..hi]`.
fn str_eq_chars(a: &String, b: &Vec<char>, lo: usize, hi: usize) -> (r: bool)
    requires
        lo <= hi <= b@.len(),
    ensures
        r == (a@ == b@.subrange(lo as int, hi as int)),
{
    let s = a.as_str();
    let n = s.unicode_len();
    if n != hi - lo {
        return false;
    }
    let mut k: usize = 0;
    while k < n
        invariant
            n == s@.len(),
            s@ == a@,
            n == hi - lo,
            lo <= hi <= b@.len(),
            k <= n,
            forall|q: int| 0 <= q < k ==> s@[q] == b@[lo + q],
        decreases n - k,
    {
        if s.get_char(k) != b[lo + k] {
            proof {
                assert(a@[k as int] != b@.subrange(lo as int, hi as int)[k as int]);
            }
            return false;
        }
        k = k + 1;
    }
    proof {
        assert(a@ =~= b@.subrange(lo as int, hi as int));
    }
    true
}

fn message(prefix: &str, middle: &Vec<char>, lo: usize, hi: usize, suffix: &str) -> (r: String)
    requires
        lo <= hi <= middle@.len(),
    ensures
        r@ == prefix@ + middle@.subrange(lo as int, hi as int) + suffix@,
{
    let mut m = String::new();
    m.append(prefix);
    let mid = string_of(&middle.as_slice()[lo..hi]);
    m.append(mid.as_str());
    m.append(suffix);
    m
}

impl ParseResult {
    pub fn new() -> (r: Self)
        ensures
            r@ == empty_view(),
    {
        let r = ParseResult { flags: Vec::new(), options: Vec::new(), positional: Vec::new() };
        proof {
            assert(r@.flags =~= Seq::<Seq<char>>::empty());
            assert(r@.options =~= Seq::<(Seq<char>, Seq<char>)>::empty());
            assert(r@.positional =~= Seq::<Seq<char>>::empty());
        }
        r
    }

    fn add_flag(&mut self, k: &String)
        ensures
            final(self)@ == add_flag(old(self)@, k@),
    {
        let mut i: usize = 0;
        while i < self.flags.len()
            invariant
                i <= self.flags@.len(),
                forall|q: int| 0 <= q < i ==> self.flags@[q]@ != k@,
            decreases self.flags@.len() - i,
        {
            if self.flags[i] == *k {
                proof {
                    assert(old(self)@.flags[i as int] == k@);
                }
                return;
            }
            i = i + 1;
        }
        proof {
            assert(!old(self)@.flags.contains(k@)) by {
                if old(self)@.flags.contains(k@) {
                    let q = choose|q: int| 0 <= q < old(self)@.flags.len() && old(self)@.flags[q] == k@;
                    assert(self.flags@[q]@ == k@);
                }
            }
        }
        self.flags.push(k.clone());
        proof {
            assert(self@.flags =~= old(self)@.flags.push(k@));
        }
    }

    fn set_option(&mut self, k: &String, v: String)
        ensures
            final(self)@ == set_option(old(self)@, k@, v@),
    {
        let ghost opts = old(self)@.options;
        let mut i: usize = self.options.len();
        assert(opts.take(opts.len() as int) =~= opts);
        while i > 0
            invariant
                i <= self.options@.len(),
                self@ == old(self)@,
                opts == self@.options,
                option_pos(opts, k@) == option_pos(opts.take(i as int), k@),
            decreases i,
        {
            proof {
                assert(opts.take(i as int).drop_last() =~= opts.take(i - 1));
                assert(opts.take(i as int).last() == opts[i - 1]);
            }
            if self.options[i - 1].0 == *k {
                let entry = (k.clone(), v);
                self.options.set(i - 1, entry);
                proof {
                    assert(self@.options =~= opts.update(i - 1, (k@, v@)));
                }
                return;
            }
            i = i - 1;
        }
        proof {
            assert(opts.take(0) =~= Seq::<(Seq<char>, Seq<char>)>::empty());
        }
        self.options.push((k.clone(), v));
        proof {
            assert(self@.options =~= opts.push((k@, v@)));
        }
    }

    fn add_positional(&mut self, a: String)
        ensures
            final(self)@ == add_positional(old(self)@, a@),
    {
        self.positional.push(a);
        proof {
            assert(self@.positional =~= old(self)@.positional.push(a@));
        }
    }

    /// Whether the flag with key `name` was given.
    pub fn has_flag(&self, name: &str) -> (r: bool)
        ensures
            r == self@.flags.contains(name@),
    {
        let n = chars_of(name);
        let mut i: usize = 0;
        while i < self.flags.len()
            invariant
                n@ == name@,
                i <= self.flags@.len(),
                forall|q: int| 0 <= q < i ==> self.flags@[q]@ != name@,
            decreases self.flags@.len() - i,
        {
            if str_eq_chars(&self.flags[i], &n, 0, n.len()) {
                proof {
                    assert(n@.subrange(0, n@.len() as int) =~= n@);
                    assert(self@.flags[i as int] == name@);
                }
                return true;
            }
            proof {
                assert(n@.subrange(0, n@.len() as int) =~= n@);
            }
            i = i + 1;
        }
        false
    }

    /// The value given for the option with key `name`, if any.
    pub fn option(&self, name: &str) -> (r: Option<&String>)
        ensures
            match r {
                Some(v) => option_pos(self@.options, name@) >= 0
                    && self@.options[option_pos(self@.options, name@)].1 == v@,
                None => option_pos(self@.options, name@) < 0,
            },
    {
        let n = chars_of(name);
        let ghost opts = self@.options;
        let mut i: usize = self.options.len();
        proof {
            assert(n@.subrange(0, n@.len() as int) =~= n@);
            assert(opts.take(opts.len() as int) =~= opts);
        }
        while i > 0
            invariant
                n@ == name@,
                n@.subrange(0, n@.len() as int) == n@,
                i <= self.options@.len(),
                opts == self@.options,
                option_pos(opts, name@) == option_pos(opts.take(i as int), name@),
            decreases i,
        {
            proof {
                assert(opts.take(i as int).drop_last() =~= opts.take(i - 1));
                assert(opts.take(i as int).last() == opts[i - 1]);
            }
            if str_eq_chars(&self.options[i - 1].0, &n, 0, n.len()) {
                return Some(&self.options[i - 1].1);
            }
            i = i - 1;
        }
        proof {
            assert(opts.take(0) =~= Seq::<(Seq<char>, Seq<char>)>::empty());
        }
        None
    }
}

impl CliParser {
    pub fn new() -> (r: Self)
        ensures
            r@ == Seq::<ArgConfig>::empty(),
    {
        CliParser { configs: Vec::new() }
    }

    /// Registers an argument; a later registration of the same short or long name wins.
    pub fn add_arg(&mut self, config: ArgConfig)
        ensures
            final(self)@ == old(self)@.push(config),
    {
        self.configs.push(config);
    }

    fn find_long(&self, s: &Vec<char>, lo: usize, hi: usize) -> (r: Option<usize>)
        requires
            lo <= hi <= s@.len(),
        ensures
            match r {
                Some(i) => i == long_index(self@, s@.subrange(lo as int, hi as int)) && i < self@.len(),
                None => long_index(self@, s@.subrange(lo as int, hi as int)) < 0,
            },
    {
        let ghost name = s@.subrange(lo as int, hi as int);
        let ghost cfgs = self.configs@;
        let mut i: usize = self.configs.len();
        assert(cfgs.take(cfgs.len() as int) =~= cfgs);
        while i > 0
            invariant
                lo <= hi <= s@.len(),
                i <= cfgs.len(),
                cfgs == self.configs@,
                name == s@.subrange(lo as int, hi as int),
                long_index(cfgs, name) == long_index(cfgs.take(i as int), name),
            decreases i,
        {
            proof {
                assert(cfgs.take(i as int).drop_last() =~= cfgs.take(i - 1));
                assert(cfgs.take(i as int).last() == cfgs[i - 1]);
            }
            let hit = match &self.configs[i - 1].long {
                Some(l) => str_eq_chars(l, s, lo, hi),
                None => false,
            };
            if hit {
                return Some(i - 1);
            }
            i = i - 1;
        }
        proof {
            assert(cfgs.take(0) =~= Seq::<ArgConfig>::empty());
        }
        None
    }

    fn find_short(&self, c: char) -> (r: Option<usize>)
        ensures
            match r {
                Some(i) => i == short_index(self@, c) && i < self@.len(),
                None => short_index(self@, c) < 0,
            },
    {
        let ghost cfgs = self.configs@;
        let mut i: usize = self.configs.len();
        assert(cfgs.take(cfgs.len() as int) =~= cfgs);
        while i > 0
            invariant
                i <= cfgs.len(),
                cfgs == self.configs@,
                short_index(cfgs, c) == short_index(cfgs.take(i as int), c),
            decreases i,
        {
            proof {
                assert(cfgs.take(i as int).drop_last() =~= cfgs.take(i - 1));
                assert(cfgs.take(i as int).last() == cfgs[i - 1]);
            }
            if self.configs[i - 1].short == Some(c) {
                return Some(i - 1);
            }
            i = i - 1;
        }
        proof {
            assert(cfgs.take(0) =~= Seq::<ArgConfig>::empty());
        }
        None
    }
}

fn message2(prefix: &str, middle: &Vec<char>, lo: usize, hi: usize) -> (r: String)
    requires
        lo <= hi <= middle@.len(),
    ensures
        r@ == prefix@ + middle@.subrange(lo as int, hi as int),
{
    let mut m = String::new();
    m.append(prefix);
    let mid = string_of(&middle.as_slice()[lo..hi]);
    m.append(mid.as_str());
    m
}

impl CliParser {
    /// Parses `args`, returning the flags, options and positional arguments found, or a
    /// message naming the first problem.
    pub fn parse(&self, args: Vec<&str>) -> (r: Result<ParseResult, String>)
        ensures
            ({
                let a = args@.map_values(|s: &str| s@);
                match r {
                    Ok(p) => parse_from(self@, a, 0, empty_view(), false) == Ok::<ParseView, Seq<char>>(p@),
                    Err(e) => parse_from(self@, a, 0, empty_view(), false) == Err::<ParseView, Seq<char>>(e@),
                }
            }),
    {
        let ghost cfgs = self@;
        let ghost aa = args@.map_values(|s: &str| s@);
        let n = args.len();
        let mut result = ParseResult::new();
        let mut positional_only = false;
        let mut i: usize = 0;
        while i < n
            invariant
                n == args@.len(),
                aa == args@.map_values(|s: &str| s@),
                cfgs == self@,
                i <= n,
                parse_from(cfgs, aa, i as int, result@, positional_only) == parse_from(cfgs, aa, 0, empty_view(), false),
            decreases n - i,
        {
            let a = chars_of(args[i]);
            proof {
                assert(aa[i as int] == a@);
            }
            if positional_only {
                result.add_positional(string_of(a.as_slice()));
                i = i + 1;
            } else if a.len() == 2 && a[0] == '-' && a[1] == '-' {
                proof {
                    assert(a@ =~= seq!['-', '-']);
                }
                positional_only = true;
                i = i + 1;
            } else if a.len() >= 2 && a[0] == '-' && a[1] == '-' {
                proof {
                    assert(a@ != seq!['-', '-']) by {
                        if a@ == seq!['-', '-'] {
                            assert(a@.len() == 2);
                        }
                    }
                }
                let ghost kv = a@.skip(2);
                let len = a.len();
                let eq = find_char(&a, 2, len, '=');
                proof {
                    assert(a@.subrange(2, len as int) =~= kv);
                }
                let key_hi = match eq {
                    Some(e) => e,
                    None => len,
                };
                proof {
                    if let Some(e) = eq {
                        assert(kv.take(e - 2) =~= a@.subrange(2, e as int));
                        assert(kv.skip(e - 2 + 1) =~= a@.subrange(e + 1, len as int));
                    } else {
                        assert(kv =~= a@.subrange(2, len as int));
                    }
                }
                if len == 2 {
                    proof {
                        assert(kv.len() == 0);
                        reveal_strlit("Invalid argument: '--'");
                    }
                    return Err(String::from_str("Invalid argument: '--'"));
                }
                let ci = match self.find_long(&a, 2, key_hi) {
                    Some(ci) => ci,
                    None => {
                        return Err(message2("Unknown option: --", &a, 2, key_hi));
                    },
                };
                let mut used = false;
                match self.configs[ci].arg_type {
                    ArgType::Flag => {
                        if eq.is_some() {
                            return Err(message("Flag --", &a, 2, key_hi, " does not take a value"));
                        }
                        result.add_flag(&self.configs[ci].key);
                    },
                    ArgType::Option => {
                        match eq {
                            Some(e) => {
                                let v = string_of(&a.as_slice()[e + 1..len]);
                                result.set_option(&self.configs[ci].key, v);
                            },
                            None => {
                                if i + 1 < n {
                                    let v = args[i + 1].to_owned();
                                    proof {
                                        assert(aa[i + 1] == v@);
                                    }
                                    result.set_option(&self.configs[ci].key, v);
                                    used = true;
                                } else {
                                    return Err(message("Option --", &a, 2, key_hi, " requires a value"));
                                }
                            },
                        }
                    },
                }
                i = i + 1 + if used { 1 } else { 0 };
            } else if a.len() > 1 && a[0] == '-' {
                proof {
                    assert(a@ != seq!['-', '-']) by {
                        if a@ == seq!['-', '-'] {
                            assert(a@[1] == '-');
                        }
                    }
                }
                let ghost acc0 = result@;
                let mut used = false;
                let mut j: usize = 1;
                while j < a.len()
                    invariant_except_break
                        short_steps(cfgs, aa, i as int, a@, j as int, result@) == short_steps(cfgs, aa, i as int, a@, 1, acc0),
                        !used,
                    invariant
                        parse_from(cfgs, aa, i as int, acc0, false) == parse_from(cfgs, aa, 0, empty_view(), false),
                        !positional_only,
                        a@ != seq!['-', '-'],
                        !is_long(a@),
                        is_short(a@),
                        1 <= j <= a@.len(),
                        i < n,
                        n == args@.len(),
                        aa == args@.map_values(|s: &str| s@),
                        cfgs == self@,
                        aa[i as int] == a@,
                    ensures
                        short_steps(cfgs, aa, i as int, a@, 1, acc0) == Ok::<(ParseView, bool), Seq<char>>((result@, used)),
                        used ==> i + 1 < n,
                    decreases a@.len() - j,
                {
                    let c = a[j];
                    let ci = match self.find_short(c) {
                        Some(ci) => ci,
                        None => {
                            let mut m = String::from_str("Unknown short option: -");
                            string_push(&mut m, c);
                            return Err(m);
                        },
                    };
                    match self.configs[ci].arg_type {
                        ArgType::Flag => {
                            result.add_flag(&self.configs[ci].key);
                            j = j + 1;
                        },
                        ArgType::Option => {
                            if j + 1 < a.len() {
                                let v = string_of(&a.as_slice()[j + 1..a.len()]);
                                proof {
                                    assert(v@ =~= a@.skip(j + 1));
                                }
                                result.set_option(&self.configs[ci].key, v);
                                break;
                            } else if i + 1 < n {
                                let v = args[i + 1].to_owned();
                                proof {
                                    assert(aa[i + 1] == v@);
                                }
                                result.set_option(&self.configs[ci].key, v);
                                used = true;
                                break;
                            } else {
                                let mut m = String::from_str("Option -");
                                string_push(&mut m, c);
                                m.append(" requires a value");
                                return Err(m);
                            }
                        },
                    }
                }
                i = i + 1 + if used { 1 } else { 0 };
            } else {
                proof {
                    assert(a@ != seq!['-', '-']) by {
                        if a@ == seq!['-', '-'] {
                            assert(a@[1] == '-');
                        }
                    }
                }
                result.add_positional(string_of(a.as_slice()));
                i = i + 1;
            }
        }
        Ok(result)
    }
}

} // verus!
