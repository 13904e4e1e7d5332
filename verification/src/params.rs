//! The command-line options of the converter.

use vstd::prelude::*;
use crate::text::{
    all_digits, ascii_lower, chars_to_string, digit_value, digits_value, eq_ignore_ascii_case,
    push_str, range_eq_ignore_case, range_eq_str, str_to_chars, to_ascii_lower,
};

verus! {

/// The settings of one conversion.
pub struct Params {
    /// The file to convert.
    pub file_path: String,
    /// `xml` or `json`: the format of the file.
    pub extension: String,
    /// Spaces per level of indentation; 0 for compact output.
    pub indent: usize,
    /// The name of the output file, without extension.
    pub output_name: Option<String>,
}

/// The mathematical form of [`Params`].
pub struct ParamsView {
    pub file_path: Seq<char>,
    pub extension: Seq<char>,
    pub indent: nat,
    pub output_name: Option<Seq<char>>,
}

impl View for Params {
    type V = ParamsView;

    open spec fn view(&self) -> ParamsView {
        ParamsView {
            file_path: self.file_path@,
            extension: self.extension@,
            indent: self.indent as nat,
            output_name: optional_text(self.output_name),
        }
    }
}

/// The view of an optional string.
pub open spec fn optional_text(s: Option<String>) -> Option<Seq<char>> {
    match s {
        Some(t) => Some(t@),
        None => None,
    }
}

/// The views of the arguments.
pub open spec fn args_view(args: Seq<String>) -> Seq<Seq<char>> {
    Seq::new(args.len(), |i: int| args[i]@)
}

/// `s` with its ASCII letters in lower case.
pub open spec fn lower(s: Seq<char>) -> Seq<char> {
    Seq::new(s.len(), |i: int| ascii_lower(s[i]))
}

/// The value that `str::parse::<usize>` reads from `s`: an optional `+`,
/// then decimal digits, with a value that fits in a `usize`.
pub open spec fn parse_usize(s: Seq<char>) -> Option<nat> {
    if s.len() == 0 || (s.len() == 1 && (s[0] == '+' || s[0] == '-')) {
        None
    } else {
        let d = if s[0] == '+' {
            s.drop_first()
        } else {
            s
        };
        if all_digits(d, 10) && digits_value(d, 10) <= usize::MAX {
            Some(digits_value(d, 10))
        } else {
            None
        }
    }
}

/// An argument that can be an option's value: one that does not start with `-`.
pub open spec fn is_value(a: Seq<char>) -> bool {
    !(a.len() > 0 && a[0] == '-')
}

/// The options from argument `i` on, after the indentation, output name and
/// format found so far. Option names are matched regardless of case.
pub open spec fn parse_options(
    args: Seq<Seq<char>>,
    i: int,
    indent: nat,
    name: Option<Seq<char>>,
    from: Option<Seq<char>>,
) -> Result<(nat, Option<Seq<char>>, Option<Seq<char>>), Seq<char>>
    decreases args.len() - i,
{
    if i < 0 || i >= args.len() {
        Ok((indent, name, from))
    } else {
        let a = lower(args[i]);
        let has_value = i + 1 < args.len() && is_value(args[i + 1]);
        if a == "--pretty"@ || a == "-p"@ {
            parse_options(
                args,
                i + 1,
                if indent == 0 {
                    4
                } else {
                    indent
                },
                name,
                from,
            )
        } else if a == "--indent"@ || a == "-i"@ {
            if !has_value {
                Err("Missing value for --indent option."@)
            } else {
                match parse_usize(args[i + 1]) {
                    Some(v) => parse_options(args, i + 2, v, name, from),
                    None => Err(
                        "Invalid value for --indent: '"@ + args[i + 1]
                            + "' (expected a positive integer)"@,
                    ),
                }
            }
        } else if a == "--name"@ || a == "-n"@ {
            if !has_value {
                Err("Missing value for -n/--name option."@)
            } else {
                parse_options(args, i + 2, indent, Some(args[i + 1]), from)
            }
        } else if a == "--from"@ {
            if !has_value {
                Err("Missing value for --from option."@)
            } else {
                let f = lower(args[i + 1]);
                if f != "xml"@ && f != "json"@ {
                    Err(
                        "Invalid value for --from: '"@ + args[i + 1]
                            + "' (expected 'xml' or 'json')"@,
                    )
                } else {
                    parse_options(args, i + 2, indent, name, Some(f))
                }
            }
        } else {
            Err("Unknown option: '"@ + args[i] + "'. Use --help to see available options."@)
        }
    }
}

/// The settings for the command line `args` (the program name first, then
/// the file path, then options): `is_file` tells whether the path names an
/// existing file, and `ext` is the extension of the path's file name. The
/// format is the `--from` value, else the extension in lower case, which
/// must be `xml` or `json` in any case.
pub open spec fn parse_params(args: Seq<Seq<char>>, is_file: bool, ext: Option<Seq<char>>) -> Result<
    ParamsView,
    Seq<char>,
> {
    if args.len() < 2 || args[1].len() == 0 {
        Err("Not enough arguments provided. Please provide the file path as an argument."@)
    } else if !is_file {
        Err("File not found. Please provide a valid file path."@)
    } else {
        match parse_options(args, 2, 0, None, None) {
            Err(m) => Err(m),
            Ok((indent, name, from)) => {
                let extension = match from {
                    Some(f) => Ok(f),
                    None => match ext {
                        Some(e) => if eq_ignore_ascii_case(e, "xml"@) || eq_ignore_ascii_case(
                            e,
                            "json"@,
                        ) {
                            Ok(lower(e))
                        } else {
                            Err("Unsupported file type. Please provide XML or JSON file."@)
                        },
                        None => Err(
                            "File has no extension. Use --from xml|json to specify the format explicitly."@,
                        ),
                    },
                };
                match extension {
                    Err(m) => Err(m),
                    Ok(x) => Ok(
                        ParamsView {
                            file_path: args[1],
                            extension: x,
                            indent,
                            output_name: name,
                        },
                    ),
                }
            },
        }
    }
}

/// The index of the last `.` of `s`; -1 when there is none.
pub open spec fn last_dot(s: Seq<char>) -> int
    decreases s.len(),
{
    if s.len() == 0 {
        -1
    } else if s.last() == '.' {
        s.len() - 1
    } else {
        last_dot(s.drop_last())
    }
}

/// The extension of the file name `name`: the text after its last `.`, when
/// it has a `.` that is not its first character.
pub open spec fn name_extension(name: Seq<char>) -> Option<Seq<char>> {
    let k = last_dot(name);
    if k <= 0 {
        None
    } else {
        Some(name.subrange(k + 1, name.len() as int))
    }
}

/// `path` is one plain file name: it holds no `/`, `\` or `:`, and it is
/// neither `.` nor `..`.
pub open spec fn plain_file_name(path: Seq<char>) -> bool {
    &&& !path.contains('/')
    &&& !path.contains('\\')
    &&& !path.contains(':')
    &&& path != seq!['.']
    &&& path != seq!['.', '.']
}

/// `path` holds a `.` followed directly by the text `e`.
pub open spec fn dot_then(path: Seq<char>, e: Seq<char>) -> bool {
    exists|i: int|
        #![trigger path[i]]
        0 <= i && i + 1 + e.len() <= path.len() && path[i] == '.' && path.subrange(
            i + 1,
            i + 1 + e.len(),
        ) == e
}

/// What holds of the extension `ext` that `Path::extension` finds in `path`
/// on every platform: it holds no `.` and follows a `.` of the path (so a
/// path without `.` has none); for a path that is one plain file name it is
/// exactly [`name_extension`] of it.
pub open spec fn path_extension(path: Seq<char>, ext: Option<Seq<char>>) -> bool {
    &&& ext matches Some(e) ==> !e.contains('.') && dot_then(path, e)
    &&& !path.contains('.') ==> ext is None
    &&& plain_file_name(path) ==> ext == name_extension(path)
}

/// `Path::extension` of `path`, as text (`OsStr::to_str` cannot fail on a
/// path made from a `str`). The contract states [`path_extension`]: the
/// extension follows a `.` of the path and holds none, and for a path that
/// is one plain file name it is the text after the name's last `.` unless
/// that `.` is the first character. Which part of a longer path is its file
/// name follows the path syntax of the platform, and is left unsaid.
#[verifier::external_body]
fn file_extension(path: &str) -> (r: Option<String>)
    ensures
        path_extension(path@, optional_text(r)),
{
    std::path::Path::new(path).extension().and_then(|e| e.to_str()).map(|e| e.to_string())
}

fn lowercase(s: &[char]) -> (r: Vec<char>)
    ensures
        r@ == lower(s@),
{
    let mut r: Vec<char> = Vec::new();
    let mut i: usize = 0;
    while i < s.len()
        invariant
            i <= s@.len(),
            r@ == lower(s@.take(i as int)),
        decreases s@.len() - i,
    {
        r.push(to_ascii_lower(s[i]));
        i = i + 1;
        assert(r@ =~= lower(s@.take(i as int)));
    }
    assert(s@.take(i as int) =~= s@);
    r
}

fn parse_usize_chars(s: &[char]) -> (r: Option<usize>)
    ensures
        r matches Some(v) ==> parse_usize(s@) == Some(v as nat),
        r is None ==> parse_usize(s@) is None,
{
    let n = s.len();
    if n == 0 || (n == 1 && (s[0] == '+' || s[0] == '-')) {
        return None;
    }
    let start: usize = if s[0] == '+' {
        1
    } else {
        0
    };
    let ghost d = s@.subrange(start as int, n as int);
    assert(d =~= (if s@[0] == '+' {
        s@.drop_first()
    } else {
        s@
    }));
    let mut v: usize = 0;
    let mut i = start;
    let mut overflow = false;
    while i < n
        invariant
            start <= i <= n,
            n == s@.len(),
            n > 0,
            !(n == 1 && (s@[0] == '+' || s@[0] == '-')),
            start == (if s@[0] == '+' {
                1usize
            } else {
                0usize
            }),
            d == s@.subrange(start as int, n as int),
            all_digits(d.take(i - start), 10),
            !overflow ==> v == digits_value(d.take(i - start), 10),
            overflow ==> digits_value(d.take(i - start), 10) > usize::MAX,
        decreases n - i,
    {
        let c = s[i];
        let u = c as u32;
        let ghost k = i - start;
        if !(48 <= u && u <= 57) {
            assert(d[k] == c);
            assert(digit_value(d[k], 10) is None);
            return None;
        }
        let dv: usize = (u - 48) as usize;
        assert(d.take(k + 1).drop_last() =~= d.take(k));
        assert(d.take(k + 1).last() == c);
        assert(digit_value(c, 10) == Some(dv as nat));
        let ghost prev = digits_value(d.take(k), 10);
        assert(digits_value(d.take(k + 1), 10) == prev * 10 + dv);
        if !overflow {
            match v.checked_mul(10) {
                Some(m) => match m.checked_add(dv) {
                    Some(nv) => {
                        v = nv;
                    },
                    None => {
                        overflow = true;
                    },
                },
                None => {
                    overflow = true;
                    assert(prev * 10 + dv > usize::MAX);
                },
            }
        } else {
            assert(prev * 10 + dv >= prev) by (nonlinear_arith)
                requires
                    prev >= 0,
                    dv >= 0,
            ;
        }
        i = i + 1;
        assert(all_digits(d.take(i - start), 10)) by {
            assert forall|j: int| 0 <= j < d.take(i - start).len() implies (#[trigger] digit_value(
                d.take(i - start)[j],
                10,
            )) is Some by {
                if j < k {
                    assert(d.take(i - start)[j] == d.take(k)[j]);
                }
            }
        }
    }
    assert(d.take(i - start) =~= d);
    if overflow {
        None
    } else {
        Some(v)
    }
}

/// The message `prefix`, the argument `arg`, then `suffix`.
fn message_with(prefix: &str, arg: &String, suffix: &str) -> (r: String)
    ensures
        r@ == prefix@ + arg@ + suffix@,
{
    let mut m: Vec<char> = Vec::new();
    push_str(&mut m, prefix);
    push_str(&mut m, arg.as_str());
    push_str(&mut m, suffix);
    chars_to_string(&m)
}

fn message(s: &str) -> (r: String)
    ensures
        r@ == s@,
{
    let m = str_to_chars(s);
    chars_to_string(&m)
}

impl Params {
    /// The settings for the command line `args`; `is_file` tells whether
    /// `args[1]` names an existing file. The format is detected from the
    /// extension that `Path::extension` finds in the path `args[1]`, which
    /// stands in [`path_extension`] to it (exactly the text after the last
    /// `.` when the path is one plain file name); the result is what
    /// [`Params::from_parts`] gives for that extension.
    pub fn new(args: &[String], is_file: bool) -> (r: Result<Params, String>)
        ensures
            exists|ext: Option<Seq<char>>|
                (if args@.len() >= 2 {
                    path_extension(args@[1]@, ext)
                } else {
                    ext is None
                }) && match #[trigger] parse_params(args_view(args@), is_file, ext) {
                    Ok(p) => r matches Ok(q) && q@ == p,
                    Err(m) => r matches Err(e) && e@ == m,
                },
    {
        let ext = if args.len() >= 2 {
            file_extension(args[1].as_str())
        } else {
            None
        };
        let ghost ev = optional_text(ext);
        let r = Self::from_parts(args, is_file, ext);
        assert(match parse_params(args_view(args@), is_file, ev) {
            Ok(p) => r matches Ok(q) && q@ == p,
            Err(m) => r matches Err(e) && e@ == m,
        });
        r
    }

    /// The settings for the command line `args` (see [`parse_params`]), with
    /// `ext` the extension of the path's file name.
    pub fn from_parts(args: &[String], is_file: bool, ext: Option<String>) -> (r: Result<
        Params,
        String,
    >)
        ensures
            match parse_params(args_view(args@), is_file, optional_text(ext)) {
                Ok(p) => r matches Ok(q) && q@ == p,
                Err(m) => r matches Err(e) && e@ == m,
            },
    {
        let ghost av = args_view(args@);
        if args.len() < 2 || args[1].as_str().is_empty() {
            return Err(
                message(
                    "Not enough arguments provided. Please provide the file path as an argument.",
                ),
            );
        }
        if !is_file {
            return Err(message("File not found. Please provide a valid file path."));
        }
        let file_path = args[1].clone();
        let mut indent: usize = 0;
        let mut output_name: Option<String> = None;
        let mut from_format: Option<Vec<char>> = None;
        let mut i: usize = 2;
        while i < args.len()
            invariant
                2 <= i <= args@.len(),
                av == args_view(args@),
                av.len() >= 2,
                av[1].len() > 0,
                is_file,
                file_path@ == av[1],
                parse_options(
                    av,
                    i as int,
                    indent as nat,
                    optional_text(output_name),
                    match from_format {
                        Some(f) => Some(f@),
                        None => None,
                    },
                ) == parse_options(av, 2, 0, None, None),
            decreases args@.len() - i,
        {
            let raw = str_to_chars(args[i].as_str());
            let a = lowercase(&raw);
            let n = a.len();
            let has_value = if i + 1 < args.len() {
                let v = str_to_chars(args[i + 1].as_str());
                !(v.len() > 0 && v[0] == '-')
            } else {
                false
            };
            assert(av[i as int] == raw@);
            proof {
                if i + 1 < args@.len() {
                    assert(av[i + 1] == args@[i + 1]@);
                }
            }
            assert(a@.subrange(0, n as int) =~= a@);
            if range_eq_str(&a, 0, n, "--pretty") || range_eq_str(&a, 0, n, "-p") {
                if indent == 0 {
                    indent = 4;
                }
                i = i + 1;
            } else if range_eq_str(&a, 0, n, "--indent") || range_eq_str(&a, 0, n, "-i") {
                assert(a@.subrange(0, n as int) =~= a@);
                if !has_value {
                    return Err(message("Missing value for --indent option."));
                }
                let value = str_to_chars(args[i + 1].as_str());
                match parse_usize_chars(&value) {
                    Some(v) => {
                        indent = v;
                        i = i + 2;
                    },
                    None => {
                        return Err(
                            message_with(
                                "Invalid value for --indent: '",
                                &args[i + 1],
                                "' (expected a positive integer)",
                            ),
                        );
                    },
                }
            } else if range_eq_str(&a, 0, n, "--name") || range_eq_str(&a, 0, n, "-n") {
                assert(a@.subrange(0, n as int) =~= a@);
                if !has_value {
                    return Err(message("Missing value for -n/--name option."));
                }
                output_name = Some(args[i + 1].clone());
                i = i + 2;
            } else if range_eq_str(&a, 0, n, "--from") {
                assert(a@.subrange(0, n as int) =~= a@);
                if !has_value {
                    return Err(message("Missing value for --from option."));
                }
                let value = str_to_chars(args[i + 1].as_str());
                let f = lowercase(&value);
                let m = f.len();
                assert(f@.subrange(0, m as int) =~= f@);
                if !range_eq_str(&f, 0, m, "xml") && !range_eq_str(&f, 0, m, "json") {
                    return Err(
                        message_with(
                            "Invalid value for --from: '",
                            &args[i + 1],
                            "' (expected 'xml' or 'json')",
                        ),
                    );
                }
                from_format = Some(f);
                i = i + 2;
            } else {
                assert(a@.subrange(0, n as int) =~= a@);
                return Err(
                    message_with(
                        "Unknown option: '",
                        &args[i],
                        "'. Use --help to see available options.",
                    ),
                );
            }
        }
        let extension = match from_format {
            Some(f) => chars_to_string(&f),
            None => match ext {
                Some(e) => {
                    let ec = str_to_chars(e.as_str());
                    let k = ec.len();
                    assert(ec@.subrange(0, k as int) =~= ec@);
                    if range_eq_ignore_case(&ec, 0, k, "xml") || range_eq_ignore_case(
                        &ec,
                        0,
                        k,
                        "json",
                    ) {
                        let l = lowercase(&ec);
                        chars_to_string(&l)
                    } else {
                        return Err(
                            message("Unsupported file type. Please provide XML or JSON file."),
                        );
                    }
                },
                None => {
                    return Err(
                        message(
                            "File has no extension. Use --from xml|json to specify the format explicitly.",
                        ),
                    );
                },
            },
        };
        Ok(Params { file_path, extension, indent, output_name })
    }
}

/// `n` is the argument right after a `--name` or `-n` option (the option
/// matched regardless of case) among the options from index 2 on.
pub open spec fn named_by(args: Seq<Seq<char>>, n: Seq<char>) -> bool {
    exists|j: int|
        #![trigger lower(args[j])]
        2 <= j && j + 1 < args.len() && (lower(args[j]) == "--name"@ || lower(args[j]) == "-n"@)
            && args[j + 1] == n
}

proof fn lemma_options_name(
    args: Seq<Seq<char>>,
    i: int,
    indent: nat,
    name: Option<Seq<char>>,
    from: Option<Seq<char>>,
)
    requires
        2 <= i,
        name matches Some(n) ==> named_by(args, n),
    ensures
        parse_options(args, i, indent, name, from) matches Ok((_, Some(n), _)) ==> named_by(args, n),
    decreases args.len() - i,
{
    if i < args.len() {
        let a = lower(args[i]);
        let has_value = i + 1 < args.len() && is_value(args[i + 1]);
        if a == "--pretty"@ || a == "-p"@ {
            lemma_options_name(args, i + 1, if indent == 0 { 4 } else { indent }, name, from);
        } else if a == "--indent"@ || a == "-i"@ {
            if has_value {
                if let Some(v) = parse_usize(args[i + 1]) {
                    lemma_options_name(args, i + 2, v, name, from);
                }
            }
        } else if a == "--name"@ || a == "-n"@ {
            if has_value {
                assert(named_by(args, args[i + 1])) by {
                    assert(lower(args[i]) == a);
                }
                lemma_options_name(args, i + 2, indent, Some(args[i + 1]), from);
            }
        } else if a == "--from"@ {
            if has_value {
                let f = lower(args[i + 1]);
                if f == "xml"@ || f == "json"@ {
                    lemma_options_name(args, i + 2, indent, name, Some(f));
                }
            }
        }
    }
}

/// The output name is kept exactly as written: when the settings name an
/// output file, that name is, letter for letter and case included, the
/// argument that follows a `--name` or `-n` option.
pub proof fn lemma_output_name_verbatim(args: Seq<Seq<char>>, is_file: bool, ext: Option<Seq<char>>)
    ensures
        parse_params(args, is_file, ext) matches Ok(p) ==> (p.output_name matches Some(n)
            ==> named_by(args, n)),
{
    lemma_options_name(args, 2, 0, None, None);
}


/// An argument that selects the output name: `--name` or `-n`, in any case.
pub open spec fn is_name_option(a: Seq<char>) -> bool {
    lower(a) == "--name"@ || lower(a) == "-n"@
}

/// `n` follows the last `--name` or `-n` among the options: no option after
/// that one names the output again.
pub open spec fn last_named_by(args: Seq<Seq<char>>, n: Seq<char>) -> bool {
    exists|j: int|
        #![trigger is_name_option(args[j])]
        2 <= j && j + 1 < args.len() && is_name_option(args[j]) && args[j + 1] == n
            && forall|k: int| j < k < args.len() ==> !#[trigger] is_name_option(args[k])
}

/// No option names the output.
pub open spec fn never_named(args: Seq<Seq<char>>) -> bool {
    forall|j: int| 2 <= j < args.len() ==> !#[trigger] is_name_option(args[j])
}

proof fn lemma_value_is_no_name(a: Seq<char>)
    requires
        is_value(a),
    ensures
        !is_name_option(a),
{
    reveal_strlit("--name");
    reveal_strlit("-n");
    if a.len() > 0 {
        assert(lower(a)[0] == ascii_lower(a[0]));
    }
    if is_name_option(a) {
        assert(lower(a).len() > 0 && lower(a)[0] == '-');
    }
}

proof fn lemma_options_last_name(
    args: Seq<Seq<char>>,
    i: int,
    indent: nat,
    name: Option<Seq<char>>,
    from: Option<Seq<char>>,
)
    requires
        2 <= i <= args.len(),
        name is None ==> forall|j: int| 2 <= j < i ==> !#[trigger] is_name_option(args[j]),
        name matches Some(n) ==> exists|j: int|
            #![trigger is_name_option(args[j])]
            2 <= j && j + 1 < i && is_name_option(args[j]) && args[j + 1] == n
                && forall|k: int| j < k < i ==> !#[trigger] is_name_option(args[k]),
    ensures
        parse_options(args, i, indent, name, from) matches Ok((_, nm, _)) ==> match nm {
            None => never_named(args),
            Some(n) => last_named_by(args, n),
        },
    decreases args.len() - i,
{
    reveal_strlit("--name");
    reveal_strlit("-n");
    reveal_strlit("--pretty");
    reveal_strlit("-p");
    reveal_strlit("--indent");
    reveal_strlit("-i");
    reveal_strlit("--from");
    assert("--pretty"@.len() != "--name"@.len() && "--pretty"@.len() != "-n"@.len());
    assert("-p"@.len() != "--name"@.len() && "-p"@[1] != "-n"@[1]);
    assert("--indent"@[2] != "--name"@[2] && "--indent"@.len() != "-n"@.len());
    assert("-i"@.len() != "--name"@.len() && "-i"@[1] != "-n"@[1]);
    if i < args.len() {
        let a = lower(args[i]);
        let has_value = i + 1 < args.len() && is_value(args[i + 1]);
        if a == "--pretty"@ || a == "-p"@ {
            assert(!is_name_option(args[i]));
            lemma_options_last_name(args, i + 1, if indent == 0 { 4 } else { indent }, name, from);
        } else if a == "--indent"@ || a == "-i"@ {
            if has_value {
                assert(!is_name_option(args[i]));
                lemma_value_is_no_name(args[i + 1]);
                if let Some(v) = parse_usize(args[i + 1]) {
                    lemma_options_last_name(args, i + 2, v, name, from);
                }
            }
        } else if a == "--name"@ || a == "-n"@ {
            if has_value {
                assert(is_name_option(args[i]));
                lemma_value_is_no_name(args[i + 1]);
                assert forall|k: int| i < k < i + 2 implies !#[trigger] is_name_option(args[k]) by {
                    assert(k == i + 1);
                }
                lemma_options_last_name(args, i + 2, indent, Some(args[i + 1]), from);
            }
        } else if a == "--from"@ {
            if has_value {
                assert(!is_name_option(args[i]));
                lemma_value_is_no_name(args[i + 1]);
                let f = lower(args[i + 1]);
                if f == "xml"@ || f == "json"@ {
                    lemma_options_last_name(args, i + 2, indent, name, Some(f));
                }
            }
        }
    }
}

/// Which `--name` decides: when the settings are read, the output name is the
/// argument after the last `--name` or `-n` option, written as it stands, and
/// there is no output name when no such option is given.
pub proof fn lemma_last_name_wins(args: Seq<Seq<char>>, is_file: bool, ext: Option<Seq<char>>)
    ensures
        parse_params(args, is_file, ext) matches Ok(p) ==> match p.output_name {
            None => never_named(args),
            Some(n) => last_named_by(args, n),
        },
{
    if args.len() >= 2 {
        lemma_options_last_name(args, 2, 0, None, None);
    }
}

} // verus!
