//! The scan configuration and its command-line parser.
//!
//! The parser turns the argument vector into a validated `Arguments`
//! record: target address, worker count and the inclusive-exclusive port
//! bounds.  Every rejection is an error string that tells the user what
//! was wrong.  The address is kept as the literal the user gave; whether
//! it names a valid IPv4 or IPv6 address is checked at the process edge,
//! outside the library.

use vstd::prelude::*;

verus! {

use vstd::string::StrSliceExecFns;

/// Largest port number the scanner accepts.
pub const MAX_PORT: u16 = 65355;

/// Worker count used when `-t` is not given.
pub const DEFAULT_THREADS: u16 = 10;

/// Most command-line tokens a run accepts.
pub const MAX_ARGS: usize = 6;

/// The validated configuration of one run.
#[derive(Debug, PartialEq, Eq)]
pub struct Arguments {
    /// The target address literal, IPv4 or IPv6.
    pub addr: String,
    /// How many workers scan concurrently; also the stride of each.
    pub num_threads: u16,
    /// First port of the range, inclusive.
    pub start_port: u16,
    /// End of the range, exclusive.
    pub end_port: u16,
}

/// The mathematical image of an `Arguments` record.
pub ghost struct ArgsModel {
    pub addr: Seq<char>,
    pub num_threads: u16,
    pub start_port: u16,
    pub end_port: u16,
}

impl View for Arguments {
    type V = ArgsModel;

    open spec fn view(&self) -> ArgsModel {
        ArgsModel {
            addr: self.addr@,
            num_threads: self.num_threads,
            start_port: self.start_port,
            end_port: self.end_port,
        }
    }
}

impl ArgsModel {
    /// What the scan coordinator may assume of a parsed configuration.
    pub open spec fn valid(self) -> bool {
        &&& 1 <= self.num_threads <= MAX_PORT
        &&& self.start_port <= self.end_port <= MAX_PORT
    }
}

/// The configuration of a run given no arguments: loopback, ten workers,
/// all ports up to the maximum.
pub open spec fn default_model() -> ArgsModel {
    ArgsModel {
        addr: "127.0.0.1"@,
        num_threads: DEFAULT_THREADS,
        start_port: 1,
        end_port: MAX_PORT,
    }
}

/// `c` is a decimal digit.
pub open spec fn is_digit(c: char) -> bool {
    48 <= c as int <= 57
}

/// The value of a decimal digit character.
pub open spec fn digit_val(c: char) -> int {
    c as int - 48
}

/// The number written by a string of decimal digits, most significant first.
pub open spec fn dec_val(s: Seq<char>) -> int
    decreases s.len(),
{
    if s.len() == 0 {
        0
    } else {
        dec_val(s.drop_last()) * 10 + digit_val(s.last())
    }
}

/// Every character of `s` is a decimal digit.
pub open spec fn all_digits(s: Seq<char>) -> bool {
    forall|i: int| 0 <= i < s.len() ==> is_digit(#[trigger] s[i])
}

/// The digits of an unsigned decimal literal: a leading plus sign is
/// allowed and ignored.
pub open spec fn u16_digits(s: Seq<char>) -> Seq<char> {
    if s.len() > 0 && s[0] == '+' {
        s.drop_first()
    } else {
        s
    }
}

/// `s` is a decimal literal whose value fits in sixteen bits: at least one
/// digit after the optional plus sign, digits only, value at most 65535.
pub open spec fn parses_as_u16(s: Seq<char>) -> bool {
    let t = u16_digits(s);
    &&& t.len() > 0
    &&& all_digits(t)
    &&& dec_val(t) <= u16::MAX
}

/// The value of a decimal literal.
pub open spec fn u16_value(s: Seq<char>) -> int {
    dec_val(u16_digits(s))
}

proof fn lemma_dec_val_nonneg(s: Seq<char>)
    requires
        all_digits(s),
    ensures
        dec_val(s) >= 0,
    decreases s.len(),
{
    if s.len() > 0 {
        assert(is_digit(s[s.len() - 1]));
        lemma_dec_val_nonneg(s.drop_last());
    }
}

/// A digit string is worth at least any of its prefixes: appending digits
/// never shrinks the value.
proof fn lemma_dec_val_prefix(s: Seq<char>, m: int)
    requires
        all_digits(s),
        0 <= m <= s.len(),
    ensures
        dec_val(s.take(m)) <= dec_val(s),
    decreases s.len(),
{
    if m == s.len() {
        assert(s.take(m) =~= s);
    } else {
        let d = s.drop_last();
        assert(all_digits(d));
        lemma_dec_val_prefix(d, m);
        assert(s.take(m) =~= d.take(m));
        lemma_dec_val_nonneg(d);
        assert(is_digit(s[s.len() - 1]));
        assert(dec_val(s) == dec_val(d) * 10 + digit_val(s.last()));
        assert(dec_val(d) * 10 >= dec_val(d)) by (nonlinear_arith)
            requires
                dec_val(d) >= 0,
        ;
    }
}

/// Parse a decimal literal the way `str::parse::<u16>` reads one: an
/// optional plus sign, then one or more digits, rejecting values over
/// 65535 and anything else.
pub fn parse_u16(s: &str) -> (r: Option<u16>)
    ensures
        match r {
            Some(v) => parses_as_u16(s@) && v == u16_value(s@),
            None => !parses_as_u16(s@),
        },
{
    let len = s.unicode_len();
    let start: usize = if len > 0 && s.get_char(0) == '+' {
        1
    } else {
        0
    };
    let ghost t = u16_digits(s@);
    proof {
        assert(t =~= s@.skip(start as int));
    }
    if start >= len {
        return None;
    }
    let mut acc: u32 = 0;
    let mut i: usize = start;
    while i < len
        invariant
            start <= i <= len,
            len == s@.len(),
            start <= 1,
            t == u16_digits(s@),
            t == s@.skip(start as int),
            t.len() == len - start,
            forall|k: int| 0 <= k < t.len() ==> t[k] == s@[k + start],
            all_digits(t.take(i - start)),
            acc == dec_val(t.take(i - start)),
            acc <= 65535,
        decreases len - i,
    {
        let c = s.get_char(i);
        let u = c as u32;
        if u < 48 || u > 57 {
            assert(!is_digit(t[i - start]));
            return None;
        }
        let d = u - 48;
        let next = acc * 10 + d;
        proof {
            let m = i - start;
            assert(t.take(m + 1).drop_last() =~= t.take(m));
            assert(t.take(m + 1).last() == t[m]);
        }
        if next > 65535 {
            proof {
                if all_digits(t) {
                    assert(dec_val(t.take(i - start + 1)) == acc * 10 + d);
                    lemma_dec_val_prefix(t, i - start + 1);
                }
            }
            return None;
        }
        acc = next;
        i = i + 1;
    }
    proof {
        assert(t.take(t.len() as int) =~= t);
    }
    Some(acc as u16)
}

/// One token is `-h` or `-help`.
pub open spec fn is_help_flag(s: Seq<char>) -> bool {
    s == "-h"@ || s == "-help"@
}

/// Some token of the input asks for the usage text.
pub open spec fn contains_help(input: Seq<Seq<char>>) -> bool {
    exists|i: int| 0 <= i < input.len() && is_help_flag(#[trigger] input[i])
}

/// What the option loop makes of the remaining tokens, starting from the
/// settings gathered so far.  Options come as flag-value pairs, each flag
/// overwriting its setting; the first bad token stops the loop with its
/// error.
pub open spec fn parse_options(input: Seq<Seq<char>>, cur: ArgsModel) -> Result<
    ArgsModel,
    Seq<char>,
>
    decreases input.len(),
{
    if input.len() == 0 {
        Ok(cur)
    } else if input[0] == "-i"@ {
        if input.len() == 1 {
            Err("No IP address provided after -i"@)
        } else {
            parse_options(input.skip(2), ArgsModel { addr: input[1], ..cur })
        }
    } else if input[0] == "-t"@ {
        if input.len() == 1 {
            Err("No thread numbers provided after -t"@)
        } else if !parses_as_u16(input[1]) {
            Err("Invalid thread numbers"@)
        } else if u16_value(input[1]) == 0 || u16_value(input[1]) > MAX_PORT {
            Err("Thread number out of range"@)
        } else {
            parse_options(
                input.skip(2),
                ArgsModel { num_threads: u16_value(input[1]) as u16, ..cur },
            )
        }
    } else if input[0] == "-p"@ {
        if input.len() == 1 {
            Err("No start and ending port provided after -p"@)
        } else if !has_single_dash(input[1]) {
            Err("Ports should be in the form port1-port2"@)
        } else if !parses_as_u16(port_pair_first(input[1])) {
            Err("Invalid first port"@)
        } else if !parses_as_u16(port_pair_second(input[1])) {
            Err("Invalid second port"@)
        } else if u16_value(port_pair_first(input[1])) > u16_value(port_pair_second(input[1])) {
            Err("Starting port needs to be less than Ending port"@)
        } else if u16_value(port_pair_second(input[1])) > MAX_PORT {
            Err("Ports must be in range 0-{MAX_PORT}"@)
        } else {
            parse_options(
                input.skip(2),
                ArgsModel {
                    start_port: u16_value(port_pair_first(input[1])) as u16,
                    end_port: u16_value(port_pair_second(input[1])) as u16,
                    ..cur
                },
            )
        }
    } else {
        Err("invalid argument"@)
    }
}

/// What `Arguments::new` makes of the whole argument vector: too many
/// tokens and the help flags are answered first, then the option loop
/// runs over the defaults.
pub open spec fn parse_result(input: Seq<Seq<char>>) -> Result<ArgsModel, Seq<char>> {
    if input.len() > MAX_ARGS {
        Err("too many arguments"@)
    } else if contains_help(input) {
        if input.len() == 1 {
            Err("help"@)
        } else {
            Err("use -h or -help as an isolated argument"@)
        }
    } else {
        parse_options(input, default_model())
    }
}

/// The option loop keeps the configuration valid: every worker count it
/// accepts is positive and bounded, every port range ordered and bounded.
pub proof fn lemma_parse_options_valid(input: Seq<Seq<char>>, cur: ArgsModel)
    requires
        cur.valid(),
    ensures
        parse_options(input, cur) matches Ok(m) ==> m.valid(),
    decreases input.len(),
{
    if input.len() == 0 {
    } else if input[0] == "-i"@ {
        if input.len() > 1 {
            lemma_parse_options_valid(input.skip(2), ArgsModel { addr: input[1], ..cur });
        }
    } else if input[0] == "-t"@ {
        if input.len() > 1 && parses_as_u16(input[1]) {
            lemma_dec_val_nonneg(u16_digits(input[1]));
        }
        if input.len() > 1 && parses_as_u16(input[1]) && 1 <= u16_value(input[1]) <= MAX_PORT {
            lemma_parse_options_valid(
                input.skip(2),
                ArgsModel { num_threads: u16_value(input[1]) as u16, ..cur },
            );
        }
    } else if input[0] == "-p"@ {
        if input.len() > 1 && has_single_dash(input[1]) {
            if parses_as_u16(port_pair_first(input[1])) {
                lemma_dec_val_nonneg(u16_digits(port_pair_first(input[1])));
            }
            if parses_as_u16(port_pair_second(input[1])) {
                lemma_dec_val_nonneg(u16_digits(port_pair_second(input[1])));
            }
        }
        if input.len() > 1 && has_single_dash(input[1]) && parses_as_u16(port_pair_first(input[1]))
            && parses_as_u16(port_pair_second(input[1])) && u16_value(port_pair_first(input[1]))
            <= u16_value(port_pair_second(input[1])) && u16_value(port_pair_second(input[1]))
            <= MAX_PORT {
            lemma_parse_options_valid(
                input.skip(2),
                ArgsModel {
                    start_port: u16_value(port_pair_first(input[1])) as u16,
                    end_port: u16_value(port_pair_second(input[1])) as u16,
                    ..cur
                },
            );
        }
    }
}

/// Does some token ask for the usage text?
fn input_asks_for_help(user_input: &Vec<String>) -> (r: bool)
    ensures
        r == contains_help(user_input.deep_view()),
{
    let flag_short: String = "-h".to_owned();
    let flag_long: String = "-help".to_owned();
    let ghost dv = user_input.deep_view();
    let mut i: usize = 0;
    let mut found = false;
    while i < user_input.len()
        invariant
            i <= user_input.len(),
            dv == user_input.deep_view(),
            dv.len() == user_input@.len(),
            forall|k: int| 0 <= k < dv.len() ==> dv[k] == user_input@[k]@,
            flag_short@ == "-h"@,
            flag_long@ == "-help"@,
            found == exists|k: int| 0 <= k < i && is_help_flag(#[trigger] dv[k]),
        decreases user_input.len() - i,
    {
        if user_input[i] == flag_short || user_input[i] == flag_long {
            proof {
                assert(is_help_flag(dv[i as int]));
            }
            found = true;
        }
        i = i + 1;
    }
    found
}

impl Arguments {
    /// Parse the argument vector into a validated configuration, answering
    /// each rejected input with the error string the usage rules name for
    /// it.  The result is exactly what `parse_result` says of the tokens;
    /// an accepted configuration has a positive, bounded worker count and
    /// an ordered, bounded port range.
    pub fn new(user_input: &Vec<String>) -> (r: Result<Arguments, &'static str>)
        ensures
            match r {
                Ok(a) => parse_result(user_input.deep_view()) == Ok::<ArgsModel, Seq<char>>(a@)
                    && a@.valid(),
                Err(e) => parse_result(user_input.deep_view()) == Err::<ArgsModel, Seq<char>>(e@),
            },
    {
        let ghost dv = user_input.deep_view();
        if user_input.len() > MAX_ARGS {
            return Err("too many arguments");
        }
        if input_asks_for_help(user_input) {
            if user_input.len() == 1 {
                return Err("help");
            } else {
                return Err("use -h or -help as an isolated argument");
            }
        }
        let flag_addr: String = "-i".to_owned();
        let flag_threads: String = "-t".to_owned();
        let flag_ports: String = "-p".to_owned();
        let mut args = Arguments {
            addr: "127.0.0.1".to_owned(),
            num_threads: DEFAULT_THREADS,
            start_port: 1,
            end_port: MAX_PORT,
        };
        proof {
            assert(args@ == default_model());
            assert(dv.skip(0) =~= dv);
        }
        let mut i: usize = 0;
        while i < user_input.len()
            invariant
                i <= user_input.len(),
                dv == user_input.deep_view(),
                dv.len() == user_input@.len(),
                forall|k: int| 0 <= k < dv.len() ==> dv[k] == user_input@[k]@,
                flag_addr@ == "-i"@,
                flag_threads@ == "-t"@,
                flag_ports@ == "-p"@,
                dv.len() <= MAX_ARGS,
                !contains_help(dv),
                parse_options(dv.skip(i as int), args@) == parse_options(dv, default_model()),
            decreases user_input.len() - i,
        {
            let ghost rest = dv.skip(i as int);
            proof {
                assert(rest[0] == dv[i as int]);
                assert(rest.len() == dv.len() - i);
                if i + 1 < user_input.len() {
                    assert(rest[1] == dv[i + 1]);
                }
                if i + 2 <= user_input.len() {
                    assert(rest.skip(2) =~= dv.skip(i + 2));
                }
            }
            if user_input[i] == flag_addr {
                if i + 1 >= user_input.len() {
                    return Err("No IP address provided after -i");
                }
                args.addr = user_input[i + 1].clone();
                i = i + 2;
            } else if user_input[i] == flag_threads {
                if i + 1 >= user_input.len() {
                    return Err("No thread numbers provided after -t");
                }
                let parsed = parse_u16(user_input[i + 1].as_str());
                let threads = match parsed {
                    Some(v) => v,
                    None => {
                        return Err("Invalid thread numbers");
                    },
                };
                if threads == 0 || threads > MAX_PORT {
                    return Err("Thread number out of range");
                }
                args.num_threads = threads;
                i = i + 2;
            } else if user_input[i] == flag_ports {
                if i + 1 >= user_input.len() {
                    return Err("No start and ending port provided after -p");
                }
                let pair = user_input[i + 1].as_str();
                let dash = match find_single_dash(pair) {
                    Some(j) => j,
                    None => {
                        return Err("Ports should be in the form port1-port2");
                    },
                };
                let pair_len = pair.unicode_len();
                let first_str = pair.substring_char(0, dash);
                let second_str = pair.substring_char(dash + 1, pair_len);
                proof {
                    assert(first_str@ =~= port_pair_first(pair@));
                    assert(second_str@ =~= port_pair_second(pair@));
                }
                let first = match parse_u16(first_str) {
                    Some(v) => v,
                    None => {
                        return Err("Invalid first port");
                    },
                };
                let second = match parse_u16(second_str) {
                    Some(v) => v,
                    None => {
                        return Err("Invalid second port");
                    },
                };
                if first > second {
                    return Err("Starting port needs to be less than Ending port");
                }
                if second > MAX_PORT {
                    return Err("Ports must be in range 0-{MAX_PORT}");
                }
                args.start_port = first;
                args.end_port = second;
                i = i + 2;
            } else {
                return Err("invalid argument");
            }
        }
        proof {
            assert(dv.skip(i as int) =~= Seq::<Seq<char>>::empty());
            lemma_parse_options_valid(dv, default_model());
        }
        Ok(args)
    }
}

/// `s` holds a dash at `j` and nowhere else.
pub open spec fn single_dash_at(s: Seq<char>, j: int) -> bool {
    &&& 0 <= j < s.len()
    &&& s[j] == '-'
    &&& forall|k: int| 0 <= k < s.len() && k != j ==> #[trigger] s[k] != '-'
}

/// `s` splits into exactly two parts around a dash: one dash, with the
/// bounds standing before and after it.
pub open spec fn has_single_dash(s: Seq<char>) -> bool {
    exists|j: int| single_dash_at(s, j)
}

/// Where the one dash of `s` stands.
pub open spec fn dash_index(s: Seq<char>) -> int {
    choose|j: int| single_dash_at(s, j)
}

/// What stands before the dash.
pub open spec fn port_pair_first(s: Seq<char>) -> Seq<char> {
    s.take(dash_index(s))
}

/// What stands after the dash.
pub open spec fn port_pair_second(s: Seq<char>) -> Seq<char> {
    s.skip(dash_index(s) + 1)
}

/// Find the position of the dash when the string holds exactly one.
fn find_single_dash(s: &str) -> (r: Option<usize>)
    ensures
        match r {
            Some(j) => single_dash_at(s@, j as int) && j as int == dash_index(s@),
            None => !has_single_dash(s@),
        },
{
    let len = s.unicode_len();
    let mut i: usize = 0;
    let mut found: Option<usize> = None;
    while i < len
        invariant
            i <= len,
            len == s@.len(),
            match found {
                Some(j) => 0 <= j < i && s@[j as int] == '-' && forall|k: int|
                    0 <= k < i && k != j ==> #[trigger] s@[k] != '-',
                None => forall|k: int| 0 <= k < i ==> #[trigger] s@[k] != '-',
            },
        decreases len - i,
    {
        let c = s.get_char(i);
        if c == '-' {
            match found {
                Some(j) => {
                    proof {
                        let j0 = j as int;
                        assert forall|m: int| !single_dash_at(s@, m) by {
                            if m == j0 {
                                assert(s@[i as int] == '-');
                            } else {
                                assert(s@[j0] == '-');
                            }
                        }
                    }
                    return None;
                },
                None => {
                    found = Some(i);
                },
            }
        }
        i = i + 1;
    }
    proof {
        match found {
            Some(j) => {
                assert(single_dash_at(s@, j as int));
                let j1 = dash_index(s@);
                assert(single_dash_at(s@, j1));
                assert(j1 == j as int);
            },
            None => {
                assert forall|m: int| !single_dash_at(s@, m) by {
                    if 0 <= m < s@.len() {
                        assert(s@[m] != '-');
                    }
                }
            },
        }
    }
    found
}

} // verus!
