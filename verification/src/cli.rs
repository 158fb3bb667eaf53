//! The document server's command line.

use crate::text::{str_eq, text};
use vstd::prelude::*;

verus! {

/// What the server was asked to do.
pub struct ServerOptions {
    /// The data directory.
    pub data: String,
    /// The directory of the web app to serve, if any.
    pub static_dir: Option<String>,
    pub port: u16,
    /// Mark session cookies `Secure`.
    pub secure_cookies: bool,
    /// Print the usage and stop.
    pub help: bool,
}

/// Why the command line cannot be followed.
#[derive(Debug, PartialEq, Eq)]
pub enum ArgError {
    /// A flag without its value; says which.
    Missing(String),
    /// `--port` with something that is not a port number.
    BadPort,
    /// An argument the server does not know.
    Unknown(String),
}

/// What the options say.
pub struct OptionsView {
    pub data: Seq<char>,
    pub static_dir: Option<Seq<char>>,
    pub port: u16,
    pub secure_cookies: bool,
    pub help: bool,
}

impl View for ServerOptions {
    type V = OptionsView;

    open spec fn view(&self) -> OptionsView {
        OptionsView {
            data: self.data@,
            static_dir: match self.static_dir {
                Some(d) => Some(d@),
                None => None,
            },
            port: self.port,
            secure_cookies: self.secure_cookies,
            help: self.help,
        }
    }
}

/// What the error says.
pub enum ArgProblem {
    Missing(Seq<char>),
    BadPort,
    Unknown(Seq<char>),
}

/// The view of an error.
pub open spec fn problem_of(e: ArgError) -> ArgProblem {
    match e {
        ArgError::Missing(m) => ArgProblem::Missing(m@),
        ArgError::BadPort => ArgProblem::BadPort,
        ArgError::Unknown(a) => ArgProblem::Unknown(a@),
    }
}

/// What `u16::from_str` accepts: an optional `+` and then one or more
/// ASCII digits whose value fits in 16 bits.
pub open spec fn port_number(t: Seq<char>) -> Option<u16> {
    let d = if t.len() > 0 && t[0] == '+' {
        t.skip(1)
    } else {
        t
    };
    if d.len() > 0 && all_digits(d) && digit_value(d) <= u16::MAX {
        Some(digit_value(d) as u16)
    } else {
        None
    }
}

/// An ASCII digit.
pub open spec fn is_digit(c: char) -> bool {
    '0' <= c && c <= '9'
}

/// Every character of `d` is an ASCII digit.
pub open spec fn all_digits(d: Seq<char>) -> bool {
    forall|i: int| 0 <= i < d.len() ==> is_digit(#[trigger] d[i])
}

/// The number decimal digits write.
pub open spec fn digit_value(d: Seq<char>) -> nat
    decreases d.len(),
{
    if d.len() == 0 {
        0
    } else {
        digit_value(d.drop_last()) * 10 + (d.last() as nat - '0' as nat) as nat
    }
}

/// The options before any argument.
pub open spec fn default_options() -> OptionsView {
    OptionsView { data: "data"@, static_dir: None, port: 8080, secure_cookies: false, help: false }
}

/// The options after reading `args[i..]` on top of `o`.
pub open spec fn options_from(args: Seq<Seq<char>>, i: int, o: OptionsView) -> Result<
    OptionsView,
    ArgProblem,
>
    decreases args.len() - i,
{
    if i < 0 || i >= args.len() {
        Ok(o)
    } else {
        let a = args[i];
        if a == "--data"@ {
            if i + 1 < args.len() {
                options_from(args, i + 2, OptionsView { data: args[i + 1], ..o })
            } else {
                Err(ArgProblem::Missing("--data needs a path"@))
            }
        } else if a == "--static"@ {
            if i + 1 < args.len() {
                options_from(args, i + 2, OptionsView { static_dir: Some(args[i + 1]), ..o })
            } else {
                Err(ArgProblem::Missing("--static needs a path"@))
            }
        } else if a == "--port"@ {
            if i + 1 < args.len() {
                match port_number(args[i + 1]) {
                    Some(p) => options_from(args, i + 2, OptionsView { port: p, ..o }),
                    None => Err(ArgProblem::BadPort),
                }
            } else {
                Err(ArgProblem::Missing("--port needs a number"@))
            }
        } else if a == "--secure-cookies"@ {
            options_from(args, i + 1, OptionsView { secure_cookies: true, ..o })
        } else if a == "-h"@ || a == "--help"@ {
            Ok(OptionsView { help: true, ..o })
        } else {
            Err(ArgProblem::Unknown(a))
        }
    }
}

/// The views of the arguments.
pub open spec fn args_view(args: Seq<String>) -> Seq<Seq<char>> {
    args.map_values(|a: String| a@)
}

/// `u16::from_str` on a port argument.
pub fn parse_port(t: &str) -> (r: Option<u16>)
    ensures
        r == port_number(t@),
{
    let cs = crate::text::chars_of(t);
    let n = cs.len();
    let start: usize = if n > 0 && cs[0] == '+' {
        1
    } else {
        0
    };
    let ghost d = if t@.len() > 0 && t@[0] == '+' {
        t@.skip(1)
    } else {
        t@
    };
    assert(d =~= cs@.subrange(start as int, n as int));
    if start == n {
        return None;
    }
    let mut i = start;
    while i < n
        invariant
            start <= i <= n,
            n == cs@.len(),
            d == cs@.subrange(start as int, n as int),
            d == (if t@.len() > 0 && t@[0] == '+' {
                t@.skip(1)
            } else {
                t@
            }),
            forall|j: int| start <= j < i ==> is_digit(#[trigger] cs@[j]),
        decreases n - i,
    {
        let c = cs[i];
        if !('0' <= c && c <= '9') {
            assert(d[i - start] == c);
            assert(!(forall|j: int| 0 <= j < d.len() ==> is_digit(#[trigger] d[j])));
            return None;
        }
        i = i + 1;
    }
    assert forall|j: int| 0 <= j < d.len() implies is_digit(#[trigger] d[j]) by {
        assert(d[j] == cs@[start + j]);
    }
    let mut v: u32 = 0;
    i = start;
    assert(cs@.subrange(start as int, start as int) =~= Seq::<char>::empty());
    while i < n
        invariant
            start <= i <= n,
            n == cs@.len(),
            d == cs@.subrange(start as int, n as int),
            d == (if t@.len() > 0 && t@[0] == '+' {
                t@.skip(1)
            } else {
                t@
            }),
            forall|j: int| 0 <= j < d.len() ==> is_digit(#[trigger] d[j]),
            v <= u16::MAX,
            v == digit_value(cs@.subrange(start as int, i as int)),
        decreases n - i,
    {
        let c = cs[i];
        assert(d[i - start] == c);
        let w = v * 10 + (c as u32 - '0' as u32);
        assert(cs@.subrange(start as int, i + 1).drop_last() =~= cs@.subrange(start as int, i as int));
        if w > 65535 {
            proof {
                lemma_digit_value_grows(d, (i + 1 - start) as int);
                assert(d.take((i + 1 - start) as int) =~= cs@.subrange(start as int, i + 1));
            }
            return None;
        }
        v = w;
        i = i + 1;
    }
    assert(cs@.subrange(start as int, n as int) =~= d);
    Some(v as u16)
}

proof fn lemma_digit_value_grows(d: Seq<char>, k: int)
    requires
        0 <= k <= d.len(),
        forall|i: int| 0 <= i < d.len() ==> is_digit(#[trigger] d[i]),
    ensures
        digit_value(d.take(k)) <= digit_value(d),
    decreases d.len() - k,
{
    if k < d.len() {
        lemma_digit_value_grows(d, k + 1);
        assert(d.take(k + 1).drop_last() =~= d.take(k));
    } else {
        assert(d.take(k) =~= d);
    }
}

/// Reads the server's command line (without the program name).
pub fn server_options(args: &Vec<String>) -> (r: Result<ServerOptions, ArgError>)
    ensures
        match options_from(args_view(args@), 0, default_options()) {
            Ok(o) => r matches Ok(x) && x@ == o,
            Err(p) => r matches Err(e) && problem_of(e) == p,
        },
{
    let ghost av = args_view(args@);
    let mut o = ServerOptions {
        data: text("data"),
        static_dir: None,
        port: 8080,
        secure_cookies: false,
        help: false,
    };
    let n = args.len();
    let mut i: usize = 0;
    while i < n
        invariant_except_break
            n == args@.len(),
            av == args_view(args@),
            i <= n,
            options_from(av, 0, default_options()) == options_from(av, i as int, o@),
        ensures
            options_from(av, 0, default_options()) == Ok::<OptionsView, ArgProblem>(o@),
        decreases n - i,
    {
        let a = args[i].as_str();
        assert(av[i as int] == a@);
        if str_eq(a, "--data") {
            if i + 1 < n {
                o.data = args[i + 1].clone();
                i = i + 2;
            } else {
                return Err(ArgError::Missing(text("--data needs a path")));
            }
        } else if str_eq(a, "--static") {
            if i + 1 < n {
                o.static_dir = Some(args[i + 1].clone());
                i = i + 2;
            } else {
                return Err(ArgError::Missing(text("--static needs a path")));
            }
        } else if str_eq(a, "--port") {
            if i + 1 < n {
                match parse_port(args[i + 1].as_str()) {
                    Some(p) => {
                        o.port = p;
                        i = i + 2;
                    },
                    None => {
                        return Err(ArgError::BadPort);
                    },
                }
            } else {
                return Err(ArgError::Missing(text("--port needs a number")));
            }
        } else if str_eq(a, "--secure-cookies") {
            o.secure_cookies = true;
            i = i + 1;
        } else if str_eq(a, "-h") || str_eq(a, "--help") {
            o.help = true;
            break;
        } else {
            return Err(ArgError::Unknown(args[i].clone()));
        }
    }
    Ok(o)
}

/// `-h` and `--help` are read alike: wherever the reading of options
/// reaches either of them, it stops there and asks for the usage,
/// keeping the options read so far, whatever follows.
pub proof fn law_short_and_long_help_are_alike(args: Seq<Seq<char>>, i: int, o: OptionsView)
    requires
        0 <= i < args.len(),
        args[i] == "-h"@ || args[i] == "--help"@,
    ensures
        options_from(args, i, o) == Ok::<OptionsView, ArgProblem>(OptionsView { help: true, ..o }),
        options_from(args.update(i, "-h"@), i, o) == options_from(args.update(i, "--help"@), i, o),
{
    reveal_strlit("-h");
    reveal_strlit("--help");
    reveal_strlit("--data");
    reveal_strlit("--static");
    reveal_strlit("--port");
    reveal_strlit("--secure-cookies");
    let a = args[i];
    if a == "-h"@ {
        assert(a.len() == 2);
    } else {
        assert(a.len() == 6);
        assert(a[2] != "--data"@[2]);
        assert(a[2] != "--static"@[2]);
        assert(a[2] != "--port"@[2]);
        assert(a[2] != "--secure-cookies"@[2]);
    }
    let h1 = args.update(i, "-h"@);
    let h2 = args.update(i, "--help"@);
    assert(h1[i] == "-h"@);
    assert(h2[i] == "--help"@);
    assert("--help"@[2] != "--data"@[2]);
    assert("--help"@[2] != "--static"@[2]);
    assert("--help"@[2] != "--port"@[2]);
    assert("--help"@[2] != "--secure-cookies"@[2]);
}

} // verus!
