//! Command-line arguments of the file-processing tool.
//!
//! The first argument names the command; the rest are flags, some with a
//! value in the following argument. An unknown long flag keeps its value as
//! an extra argument; an unknown bare argument, a flag missing its value, a
//! count that is no number, and a format outside the known four are each
//! refused. The help flags are answered by the surrounding program before
//! parsing starts.

use crate::strutil::str_eq;
use vstd::prelude::*;

verus! {

pub enum OutputFormat {
    Plain,
    Json,
    Csv,
    Table,
}

pub struct CliArgs {
    pub command: String,
    pub input_file: Option<String>,
    pub output_file: Option<String>,
    pub verbose: bool,
    pub recursive: bool,
    pub pattern: Option<String>,
    pub count: usize,
    pub format: OutputFormat,
    pub extra_args: Vec<(String, String)>,
}

/// The parsed arguments, as mathematical values.
#[verifier::ext_equal]
pub struct ArgsModel {
    pub command: Seq<char>,
    pub input_file: Option<Seq<char>>,
    pub output_file: Option<Seq<char>>,
    pub verbose: bool,
    pub recursive: bool,
    pub pattern: Option<Seq<char>>,
    pub count: int,
    pub format: OutputFormat,
    pub extra_args: Seq<(Seq<char>, Seq<char>)>,
}

impl CliArgs {
    pub open spec fn view_spec(&self) -> ArgsModel {
        ArgsModel {
            command: self.command@,
            input_file: match self.input_file {
                Some(s) => Some(s@),
                None => None,
            },
            output_file: match self.output_file {
                Some(s) => Some(s@),
                None => None,
            },
            verbose: self.verbose,
            recursive: self.recursive,
            pattern: match self.pattern {
                Some(s) => Some(s@),
                None => None,
            },
            count: self.count as int,
            format: self.format,
            extra_args: Seq::new(
                self.extra_args@.len(),
                |i: int| (self.extra_args@[i].0@, self.extra_args@[i].1@),
            ),
        }
    }

    /// No input or output file, ten results, plain output, nothing extra.
    pub open spec fn default_spec() -> ArgsModel {
        ArgsModel {
            command: Seq::empty(),
            input_file: None,
            output_file: None,
            verbose: false,
            recursive: false,
            pattern: None,
            count: 10,
            format: OutputFormat::Plain,
            extra_args: Seq::empty(),
        }
    }
}

impl Default for CliArgs {
    fn default() -> (r: CliArgs)
        ensures
            r.view_spec() == CliArgs::default_spec(),
    {
        let r = CliArgs {
            command: String::new(),
            input_file: None,
            output_file: None,
            verbose: false,
            recursive: false,
            pattern: None,
            count: 10,
            format: OutputFormat::Plain,
            extra_args: Vec::new(),
        };
        proof {
            assert(r.view_spec() =~= CliArgs::default_spec());
        }
        r
    }
}

/// The numeric value of a decimal argument: an optional leading plus sign,
/// then at least one digit.
pub open spec fn dec_val(s: Seq<char>) -> Option<int> {
    if s.len() > 0 && s[0] == '+' {
        dec_val_digits(s.drop_first())
    } else {
        dec_val_digits(s)
    }
}

/// The value of the digit part, or nothing when it is empty or holds a
/// character that is no digit.
pub open spec fn dec_val_digits(digits: Seq<char>) -> Option<int> {
    if digits.len() == 0 || exists|i: int|
        0 <= i < digits.len() && !(48 <= (#[trigger] digits[i]) as u32 <= 57) {
        None
    } else {
        Some(dec_digits_val(digits))
    }
}

/// The value of a nonempty digit string, most significant digit first.
pub open spec fn dec_digits_val(s: Seq<char>) -> int
    decreases s.len(),
{
    if s.len() == 0 {
        0
    } else {
        dec_digits_val(s.drop_last()) * 10 + (s.last() as u32 - 48)
    }
}

/// One parsing step, from argument `i` on, with `acc` built so far; mirrors
/// one round of the parsing loop.
pub open spec fn parse_rec(args: Seq<Seq<char>>, i: int, acc: ArgsModel) -> Option<ArgsModel>
    decreases args.len() - i,
{
    if i < 0 || i >= args.len() {
        Some(acc)
    } else {
        let a = args[i];
        if a == ("--verbose")@ || a == ("-v")@ {
            parse_rec(args, i + 1, ArgsModel { verbose: true, ..acc })
        } else if a == ("--recursive")@ || a == ("-r")@ {
            parse_rec(args, i + 1, ArgsModel { recursive: true, ..acc })
        } else if a == ("--input")@ || a == ("-i")@ {
            if i + 1 >= args.len() {
                None
            } else {
                parse_rec(args, i + 2, ArgsModel { input_file: Some(args[i + 1]), ..acc })
            }
        } else if a == ("--output")@ || a == ("-o")@ {
            if i + 1 >= args.len() {
                None
            } else {
                parse_rec(args, i + 2, ArgsModel { output_file: Some(args[i + 1]), ..acc })
            }
        } else if a == ("--pattern")@ || a == ("-p")@ {
            if i + 1 >= args.len() {
                None
            } else {
                parse_rec(args, i + 2, ArgsModel { pattern: Some(args[i + 1]), ..acc })
            }
        } else if a == ("--count")@ || a == ("-c")@ {
            if i + 1 >= args.len() {
                None
            } else {
                match dec_val(args[i + 1]) {
                    Some(v) => if v <= usize::MAX {
                        parse_rec(args, i + 2, ArgsModel { count: v, ..acc })
                    } else {
                        None
                    },
                    None => None,
                }
            }
        } else if a == ("--format")@ || a == ("-f")@ {
            if i + 1 >= args.len() {
                None
            } else {
                let v = args[i + 1];
                if v == ("plain")@ {
                    parse_rec(args, i + 2, ArgsModel { format: OutputFormat::Plain, ..acc })
                } else if v == ("json")@ {
                    parse_rec(args, i + 2, ArgsModel { format: OutputFormat::Json, ..acc })
                } else if v == ("csv")@ {
                    parse_rec(args, i + 2, ArgsModel { format: OutputFormat::Csv, ..acc })
                } else if v == ("table")@ {
                    parse_rec(args, i + 2, ArgsModel { format: OutputFormat::Table, ..acc })
                } else {
                    None
                }
            }
        } else if a.len() >= 2 && a[0] == '-' && a[1] == '-' {
            if i + 1 >= args.len() {
                None
            } else {
                parse_rec(
                    args,
                    i + 2,
                    ArgsModel { extra_args: acc.extra_args.push((a.skip(2), args[i + 1])), ..acc },
                )
            }
        } else {
            None
        }
    }
}

pub struct ArgumentParser;

impl ArgumentParser {
    /// Parses the program's arguments. The caller answers the help flags
    /// before calling, so none is present here.
    pub fn parse(args: &Vec<String>) -> (r: Result<CliArgs, String>)
        requires
            forall|i: int|
                0 <= i < args@.len() ==> (#[trigger] args@[i])@ != ("--help")@ && args@[i]@ != (
                "-h")@,
        ensures
            ({
                let views = Seq::new(args@.len(), |i: int| args@[i]@);
                match r {
                    Ok(c) => {
                        &&& args@.len() >= 2
                        &&& parse_rec(
                            views,
                            2,
                            ArgsModel { command: views[1], ..CliArgs::default_spec() },
                        ) == Some(c.view_spec())
                    },
                    Err(_) => args@.len() < 2 || parse_rec(
                        views,
                        2,
                        ArgsModel { command: views[1], ..CliArgs::default_spec() },
                    ) is None,
                }
            }),
    {
        let ghost views = Seq::new(args@.len(), |i: int| args@[i]@);
        if args.len() < 2 {
            return Err(
                String::from_str("No command specified. Use --help for usage information."),
            );
        }
        let mut cli_args = CliArgs::default();
        cli_args.command = args[1].clone();
        let ghost init = ArgsModel { command: views[1], ..CliArgs::default_spec() };
        proof {
            assert(cli_args.view_spec() =~= init);
        }
        let mut i: usize = 2;
        while i < args.len()
            invariant
                views == Seq::new(args@.len(), |q: int| args@[q]@),
                args@.len() >= 2,
                init == (ArgsModel { command: views[1], ..CliArgs::default_spec() }),
                2 <= i <= args@.len(),
                parse_rec(views, 2, init) == parse_rec(views, i as int, cli_args.view_spec()),
            decreases args@.len() - i,
        {
            let a = args[i].as_str();
            let ghost pre = cli_args.view_spec();
            if str_eq(a, "--verbose") || str_eq(a, "-v") {
                cli_args.verbose = true;
                proof {
                    assert(cli_args.view_spec() =~= ArgsModel { verbose: true, ..pre });
                }
                i = i + 1;
            } else if str_eq(a, "--recursive") || str_eq(a, "-r") {
                cli_args.recursive = true;
                proof {
                    assert(cli_args.view_spec() =~= ArgsModel { recursive: true, ..pre });
                }
                i = i + 1;
            } else if str_eq(a, "--input") || str_eq(a, "-i") {
                i = i + 1;
                if i >= args.len() {
                    proof {
                        assert(parse_rec(views, i - 1, pre) is None);
                    }
                    return Err(String::from_str("Missing value for --input"));
                }
                cli_args.input_file = Some(args[i].clone());
                proof {
                    assert(cli_args.view_spec() =~= ArgsModel {
                        input_file: Some(views[i as int]),
                        ..pre
                    });
                }
                i = i + 1;
            } else if str_eq(a, "--output") || str_eq(a, "-o") {
                i = i + 1;
                if i >= args.len() {
                    proof {
                        assert(parse_rec(views, i - 1, pre) is None);
                    }
                    return Err(String::from_str("Missing value for --output"));
                }
                cli_args.output_file = Some(args[i].clone());
                proof {
                    assert(cli_args.view_spec() =~= ArgsModel {
                        output_file: Some(views[i as int]),
                        ..pre
                    });
                }
                i = i + 1;
            } else if str_eq(a, "--pattern") || str_eq(a, "-p") {
                i = i + 1;
                if i >= args.len() {
                    proof {
                        assert(parse_rec(views, i - 1, pre) is None);
                    }
                    return Err(String::from_str("Missing value for --pattern"));
                }
                cli_args.pattern = Some(args[i].clone());
                proof {
                    assert(cli_args.view_spec() =~= ArgsModel {
                        pattern: Some(views[i as int]),
                        ..pre
                    });
                }
                i = i + 1;
            } else if str_eq(a, "--count") || str_eq(a, "-c") {
                i = i + 1;
                if i >= args.len() {
                    proof {
                        assert(parse_rec(views, i - 1, pre) is None);
                    }
                    return Err(String::from_str("Missing value for --count"));
                }
                match parse_usize(args[i].as_str()) {
                    Some(v) => {
                        cli_args.count = v;
                        proof {
                            assert(cli_args.view_spec() =~= ArgsModel {
                                count: v as int,
                                ..pre
                            });
                        }
                    },
                    None => {
                        proof {
                            assert(parse_rec(views, i - 1, pre) is None);
                        }
                        return Err(String::from_str("Invalid count value"));
                    },
                }
                i = i + 1;
            } else if str_eq(a, "--format") || str_eq(a, "-f") {
                i = i + 1;
                if i >= args.len() {
                    proof {
                        assert(parse_rec(views, i - 1, pre) is None);
                    }
                    return Err(String::from_str("Missing value for --format"));
                }
                let v = args[i].as_str();
                if str_eq(v, "plain") {
                    cli_args.format = OutputFormat::Plain;
                } else if str_eq(v, "json") {
                    cli_args.format = OutputFormat::Json;
                } else if str_eq(v, "csv") {
                    cli_args.format = OutputFormat::Csv;
                } else if str_eq(v, "table") {
                    cli_args.format = OutputFormat::Table;
                } else {
                    proof {
                        assert(parse_rec(views, i - 1, pre) is None);
                    }
                    return Err(String::from_str("Invalid format. Use: plain, json, csv, or table"));
                }
                proof {
                    assert(cli_args.view_spec() =~= ArgsModel {
                        format: cli_args.format,
                        ..pre
                    });
                }
                i = i + 1;
            } else {
                let is_long = starts_with_two_dashes(a);
                if is_long {
                    let key = strip_two_dashes(a);
                    i = i + 1;
                    if i >= args.len() {
                        proof {
                            assert(views[i - 1].len() >= 2 && views[i - 1][0] == '-' && views[i
                                - 1][1] == '-');
                            assert(parse_rec(views, i - 1, pre) is None);
                        }
                        let mut msg = String::from_str("Missing value for ");
                        msg.append(a);
                        return Err(msg);
                    }
                    cli_args.extra_args.push((key, args[i].clone()));
                    proof {
                        assert(cli_args.view_spec() =~= ArgsModel {
                            extra_args: pre.extra_args.push(
                                (views[i - 1].skip(2), views[i as int]),
                            ),
                            ..pre
                        });
                    }
                    i = i + 1;
                } else {
                    proof {
                        assert(parse_rec(views, i as int, pre) is None);
                    }
                    let mut msg = String::from_str("Unknown argument: ");
                    msg.append(a);
                    return Err(msg);
                }
            }
        }
        Ok(cli_args)
    }
}

/// Whether the argument opens with two dashes.
fn starts_with_two_dashes(s: &str) -> (r: bool)
    ensures
        r == (s@.len() >= 2 && s@[0] == '-' && s@[1] == '-'),
{
    let n = s.unicode_len();
    if n < 2 {
        return false;
    }
    s.get_char(0) == '-' && s.get_char(1) == '-'
}

/// The argument without its two leading dashes.
fn strip_two_dashes(s: &str) -> (r: String)
    requires
        s@.len() >= 2,
    ensures
        r@ == s@.skip(2),
{
    let n = s.unicode_len();
    let r = String::from_str(s.substring_char(2, n));
    proof {
        assert(r@ =~= s@.skip(2));
    }
    r
}

/// The decimal value of the argument, if it is one and fits the machine
/// word: an optional leading plus sign, then at least one digit.
fn parse_usize(s: &str) -> (r: Option<usize>)
    ensures
        match r {
            Some(v) => dec_val(s@) == Some(v as int),
            None => dec_val(s@) is None || (dec_val(s@) matches Some(v) && v > usize::MAX),
        },
{
    let n = s.unicode_len();
    let start: usize = if n > 0 && s.get_char(0) == '+' {
        1
    } else {
        0
    };
    if start >= n {
        return None;
    }
    let ghost digits = if s@[0] == '+' {
        s@.drop_first()
    } else {
        s@
    };
    proof {
        assert(digits =~= s@.skip(start as int));
    }
    let mut value: usize = 0;
    let mut i: usize = start;
    while i < n
        invariant
            start <= i <= n,
            n == s@.len(),
            start == 0 || start == 1,
            start == 1 ==> s@[0] == '+',
            start == 0 ==> !(s@.len() > 0 && s@[0] == '+'),
            digits == s@.skip(start as int),
            forall|k: int| start <= k < i ==> 48 <= (#[trigger] s@[k]) as u32 <= 57,
            value == dec_digits_val(s@.subrange(start as int, i as int)),
            value <= usize::MAX,
        decreases n - i,
    {
        let c = s.get_char(i);
        let u = c as u32;
        if !(48 <= u && u <= 57) {
            proof {
                if start == 1 {
                    assert(digits =~= s@.drop_first());
                } else {
                    assert(digits =~= s@);
                }
                assert(digits[i - start] == s@[i as int]);
                assert(!(48 <= digits[i - start] as u32 <= 57));
                assert(dec_val_digits(digits) is None);
                assert(dec_val(s@) == dec_val_digits(digits));
            }
            return None;
        }
        let d = (u - 48) as usize;
        let ghost prefix = s@.subrange(start as int, i as int);
        proof {
            assert(s@.subrange(start as int, i + 1).drop_last() =~= prefix);
            assert(s@.subrange(start as int, i + 1).last() == s@[i as int]);
        }
        if value > (usize::MAX - d) / 10 {
            proof {
                assert(s@.subrange(start as int, i + 1) =~= digits.subrange(0, i + 1 - start));
                if start == 1 {
                    assert(digits =~= s@.drop_first());
                } else {
                    assert(digits =~= s@);
                }
                if dec_val(s@) is Some {
                    assert(dec_val(s@) == dec_val_digits(digits));
                    assert(dec_val_digits(digits) is Some);
                    assert(forall|k: int|
                        0 <= k < digits.len() ==> 48 <= (#[trigger] digits[k]) as u32 <= 57);
                    lemma_dec_digits_monotone(digits, i + 1 - start);
                    assert(dec_digits_val(digits.subrange(0, i + 1 - start)) == value * 10 + (
                    s@[i as int] as u32 - 48));
                    assert(s@[i as int] as u32 - 48 == d);
                    assert(value * 10 + d > usize::MAX);
                    assert(dec_digits_val(digits) > usize::MAX);
                    assert(dec_val(s@) == Some(dec_digits_val(digits)));
                }
            }
            return None;
        }
        value = value * 10 + d;
        i = i + 1;
    }
    proof {
        assert(s@.subrange(start as int, n as int) =~= digits);
        assert forall|k: int|
            0 <= k < digits.len() implies 48 <= (#[trigger] digits[k]) as u32 <= 57 by {
            assert(digits[k] == s@[k + start]);
        }
        assert(dec_val_digits(digits) == Some(dec_digits_val(digits)));
        assert(dec_val(s@) == dec_val_digits(digits));
        assert(dec_val(s@) == Some(dec_digits_val(digits)));
    }
    Some(value)
}

/// A digit string's value only grows as more digits follow: the value of a
/// prefix is a lower bound.
proof fn lemma_dec_digits_monotone(s: Seq<char>, k: int)
    requires
        0 <= k <= s.len(),
        forall|i: int| 0 <= i < s.len() ==> 48 <= (#[trigger] s[i]) as u32 <= 57,
    ensures
        dec_digits_val(s) >= dec_digits_val(s.subrange(0, k)),
        dec_digits_val(s) >= 0,
    decreases s.len(),
{
    if s.len() == 0 {
    } else {
        lemma_dec_digits_monotone(s.drop_last(), if k > s.len() - 1 {
            s.len() - 1
        } else {
            k
        });
        if k <= s.len() - 1 {
            assert(s.drop_last().subrange(0, k) =~= s.subrange(0, k));
        } else {
            assert(s.subrange(0, k) =~= s);
        }
        assert(s.last() as u32 >= 48);
    }
}

} // verus!
