//! Utility library: a verified bencode decoder together with a small
//! command protocol (parse a command line, render it to a JSON-shaped text
//! line, and read such a line back).

use vstd::prelude::*;

pub mod bencode;

verus! {

use vstd::string::StrSliceExecFns;
use vstd::string::StringExecFns;
use vstd::slice::slice_index_get;
use crate::bencode::{int_text_ok, int_text_val, dec_digits, int_text, digit_char, lemma_dec_digits};

/// The closed set of operations the command protocol knows.
#[derive(Debug)]
pub enum Command {
    Test,
    HealthCheck,
    Echo(String),
    Add(i32, i32),
}

impl vstd::std_specs::cmp::PartialEqSpecImpl for Command {
    open spec fn obeys_eq_spec() -> bool {
        true
    }

    open spec fn eq_spec(&self, other: &Command) -> bool {
        match (self, other) {
            (Command::Test, Command::Test) => true,
            (Command::HealthCheck, Command::HealthCheck) => true,
            (Command::Echo(x), Command::Echo(y)) => x@ == y@,
            _ => false,
        }
    }
}

impl PartialEq for Command {
    /// Equality as the protocol understands it: two additions are never
    /// considered the same exchange, only the other three forms compare.
    fn eq(&self, other: &Self) -> (r: bool) {
        match (self, other) {
            (Command::Test, Command::Test) => true,
            (Command::HealthCheck, Command::HealthCheck) => true,
            (Command::Echo(x), Command::Echo(y)) => x.eq(y),
            _ => false,
        }
    }
}

// ---------------------------------------------------------------------------
// Text helpers
// ---------------------------------------------------------------------------

/// Whether two character sequences are the same text.
#[verifier::loop_isolation(false)]
fn str_is(s: &str, lit: &str) -> (r: bool)
    ensures
        r == (s@ == lit@),
{
    let n = s.unicode_len();
    let m = lit.unicode_len();
    if n != m {
        return false;
    }
    let mut i: usize = 0;
    while i < n
        invariant
            0 <= i <= n,
            n == s@.len() == lit@.len(),
            forall|j: int| 0 <= j < i ==> s@[j] == #[trigger] lit@[j],
        decreases n - i,
    {
        let a = s.get_char(i);
        let b = lit.get_char(i);
        if a != b {
            return false;
        }
        i += 1;
    }
    proof {
        assert(s@ =~= lit@);
    }
    true
}

/// The words of an echo, joined by single spaces.
pub open spec fn join_spaces(parts: Seq<Seq<char>>) -> Seq<char>
    decreases parts.len(),
{
    if parts.len() == 0 {
        Seq::empty()
    } else if parts.len() == 1 {
        parts[0]
    } else {
        parts[0] + seq![' '] + join_spaces(parts.skip(1))
    }
}

pub open spec fn views_of(ss: Seq<String>) -> Seq<Seq<char>> {
    Seq::new(ss.len(), |i: int| ss[i]@)
}

proof fn lemma_join_push(parts: Seq<Seq<char>>, v: Seq<char>)
    ensures
        parts.len() == 0 ==> join_spaces(parts.push(v)) == v,
        parts.len() > 0 ==> join_spaces(parts.push(v)) == join_spaces(parts) + seq![' '] + v,
    decreases parts.len(),
{
    let w = parts.push(v);
    if parts.len() == 0 {
        assert(w[0] == v);
    } else {
        assert(w[0] == parts[0]);
        assert(w.skip(1) =~= parts.skip(1).push(v));
        lemma_join_push(parts.skip(1), v);
        if parts.len() == 1 {
            assert(parts.skip(1).len() == 0);
            assert(join_spaces(w) == w[0] + seq![' '] + join_spaces(w.skip(1)));
            assert(join_spaces(w.skip(1)) == v);
        } else {
            assert(join_spaces(w) == parts[0] + seq![' '] + join_spaces(parts.skip(1).push(v)));
            assert(join_spaces(parts) == parts[0] + seq![' '] + join_spaces(parts.skip(1)));
            assert(parts[0] + seq![' '] + (join_spaces(parts.skip(1)) + seq![' '] + v) =~= (
            parts[0] + seq![' '] + join_spaces(parts.skip(1))) + seq![' '] + v);
        }
    }
}

/// Reads a whole string as a signed 32-bit decimal number.
#[verifier::loop_isolation(false)]
fn i32_from_string(s: &String) -> (r: Option<i32>)
    ensures
        r is Some <==> int_text_ok(s@, i32::MIN as int, i32::MAX as int),
        r matches Some(k) ==> k as int == int_text_val(s@),
{
    let n = s.as_str().unicode_len();
    let mut v: Vec<char> = Vec::new();
    let mut i: usize = 0;
    while i < n
        invariant
            0 <= i <= n,
            n == s@.len(),
            v@ == s@.subrange(0, i as int),
        decreases n - i,
    {
        let ch = s.as_str().get_char(i);
        v.push(ch);
        proof {
            assert(v@ =~= s@.subrange(0, i as int + 1));
        }
        i += 1;
    }
    proof {
        assert(v@ =~= s@);
    }
    match crate::bencode::i64_from_text(&v, 0, n) {
        Some(k) => {
            proof {
                assert(v@.subrange(0, n as int) =~= s@);
            }
            if k >= -2147483648i64 && k <= 2147483647i64 {
                Some(k as i32)
            } else {
                None
            }
        },
        None => {
            proof {
                assert(v@.subrange(0, n as int) =~= s@);
            }
            None
        },
    }
}

/// A decimal digit as a character.
fn digit_to_char(d: u32) -> (c: char)
    requires
        d < 10,
    ensures
        c == digit_char(d as nat),
{
    if d == 0 {
        '0'
    } else if d == 1 {
        '1'
    } else if d == 2 {
        '2'
    } else if d == 3 {
        '3'
    } else if d == 4 {
        '4'
    } else if d == 5 {
        '5'
    } else if d == 6 {
        '6'
    } else if d == 7 {
        '7'
    } else if d == 8 {
        '8'
    } else {
        '9'
    }
}

/// Appends the canonical decimal digits of `n`.
fn push_decimal(out: &mut String, n: u32)
    ensures
        final(out)@ == old(out)@ + dec_digits(n as nat),
    decreases n,
{
    if n < 10 {
        let c = digit_to_char(n);
        crate::bencode::push_char(out, c);
        proof {
            assert(old(out)@.push(c) =~= old(out)@ + seq![c]);
        }
    } else {
        push_decimal(out, n / 10);
        let c = digit_to_char(n % 10);
        crate::bencode::push_char(out, c);
        proof {
            assert((old(out)@ + dec_digits((n / 10) as nat)).push(c) =~= old(out)@ + dec_digits(
                (n / 10) as nat,
            ).push(c));
        }
    }
}

/// Appends the canonical signed decimal text of `v`.
fn push_i32(out: &mut String, v: i32)
    ensures
        final(out)@ == old(out)@ + int_text(v as int),
{
    if v < 0 {
        crate::bencode::push_char(out, '-');
        let m: u32 = if v == -2147483648i32 {
            2147483648u32
        } else {
            (-v) as u32
        };
        proof {
            assert(m as nat == (-(v as int)) as nat);
        }
        push_decimal(out, m);
        proof {
            assert(old(out)@.push('-') + dec_digits(m as nat) =~= old(out)@ + (seq!['-']
                + dec_digits(m as nat)));
        }
    } else {
        push_decimal(out, v as u32);
    }
}

// ---------------------------------------------------------------------------
// The command protocol
// ---------------------------------------------------------------------------

/// Exactly what `Command::parse` returns for the argument list `s`.
pub open spec fn parse_command_post(s: Seq<String>, r: Result<Command, String>) -> bool {
    if s.len() == 0 {
        r matches Err(m) && m@ == "no command given"@
    } else if s[0]@ == "test"@ {
        r == Ok::<Command, String>(Command::Test)
    } else if s[0]@ == "health"@ {
        r == Ok::<Command, String>(Command::HealthCheck)
    } else if s[0]@ == "echo"@ {
        r matches Ok(c) && c matches Command::Echo(m) && m@ == join_spaces(
            views_of(s.subrange(1, s.len() as int)),
        )
    } else if s[0]@ == "add"@ {
        if s.len() < 2 {
            r matches Err(m) && m@ == "a was not present"@
        } else if !int_text_ok(s[1]@, i32::MIN as int, i32::MAX as int) {
            r matches Err(m) && m@ == "invalid integer argument"@
        } else if s.len() < 3 {
            r matches Err(m) && m@ == "b was not present"@
        } else if !int_text_ok(s[2]@, i32::MIN as int, i32::MAX as int) {
            r matches Err(m) && m@ == "invalid integer argument"@
        } else {
            r == Ok::<Command, String>(
                Command::Add(int_text_val(s[1]@) as i32, int_text_val(s[2]@) as i32),
            )
        }
    } else {
        r matches Err(m) && m@ == "no such command "@ + s[0]@
    }
}

/// The name each command serializes under.
pub open spec fn spec_name(c: Command) -> Seq<char> {
    match c {
        Command::Test => "test"@,
        Command::HealthCheck => "health_check"@,
        Command::Echo(_) => "echo"@,
        Command::Add(_, _) => "add"@,
    }
}

/// The variant-specific fields of the serialized line, if any.
pub open spec fn spec_args(c: Command) -> Option<Seq<char>> {
    match c {
        Command::Echo(s) => Some("\"echoed\": \""@ + s@ + "\""@),
        Command::Add(a, b) => Some(
            "\"a\": "@ + int_text(a as int) + ", \"b\": "@ + int_text(b as int),
        ),
        _ => None,
    }
}

/// The whole serialized line: a JSON-shaped object and a newline.
pub open spec fn spec_serialize(c: Command) -> Seq<char> {
    let head = "{\"command\": \""@ + spec_name(c) + "\""@;
    let mid = match spec_args(c) {
        Some(a) => ", "@ + a,
        None => Seq::<char>::empty(),
    };
    head + mid + "}\n"@
}

/// Exactly what reading a line back yields, given the fields that the JSON
/// layer found: the `command` member, the `echoed` member, and the numbers
/// under `a` and `b`. Note the reader accepts the name "health" while
/// `serialize` writes "health_check", as the protocol has always done: a
/// health check does not survive a round trip.
pub open spec fn command_fields_post(
    cmd: Option<Seq<char>>,
    echoed: Option<Seq<char>>,
    a: Option<i32>,
    b: Option<i32>,
    r: Result<Command, String>,
) -> bool {
    match cmd {
        None => r matches Err(m) && m@ == "no command"@,
        Some(c) => {
            if c == "test"@ {
                r == Ok::<Command, String>(Command::Test)
            } else if c == "health"@ {
                r == Ok::<Command, String>(Command::HealthCheck)
            } else if c == "echo"@ {
                match echoed {
                    Some(e) => r matches Ok(x) && x matches Command::Echo(m) && m@ == e,
                    None => r matches Err(m) && m@ == "bad echo - no key `echoed`"@,
                }
            } else if c == "add"@ {
                match (a, b) {
                    (Some(x), Some(y)) => r == Ok::<Command, String>(Command::Add(x, y)),
                    (None, None) => r matches Err(m) && m@ == "missing arguments `a` and `b`"@,
                    (None, _) => r matches Err(m) && m@ == "missing argument `a`"@,
                    (_, None) => r matches Err(m) && m@ == "missing argument `b`"@,
                }
            } else {
                r matches Err(m) && m@ == "bad command"@
            }
        },
    }
}

// ---------------------------------------------------------------------------
// Reading JSON through the `json` crate
// ---------------------------------------------------------------------------

/// What the JSON layer finds in a text line: `None` where the line is not a
/// JSON document, else the `command` and `echoed` string members and the
/// numbers under `a` and `b`, each absent where the document lacks it. The
/// line alone determines this, so the outcome has a name.
pub uninterp spec fn json_fields_of(s: Seq<char>) -> Option<
    (Option<Seq<char>>, Option<Seq<char>>, Option<i32>, Option<i32>),
>;

pub open spec fn opt_view(o: Option<String>) -> Option<Seq<char>> {
    match o {
        Some(s) => Some(s@),
        None => None,
    }
}

/// Relies on `json::parse` together with `JsonValue`'s member indexing,
/// `as_str` and `as_i32`: reads one JSON document and takes out the four
/// members the protocol knows. The result is a function of the text alone;
/// `json_fields_of` names it.
#[verifier::external_body]
fn json_fields(s: &str) -> (r: Option<(Option<String>, Option<String>, Option<i32>, Option<i32>)>)
    ensures
        r is Some <==> json_fields_of(s@) is Some,
        r matches Some(f) ==> json_fields_of(s@) == Some(
            (opt_view(f.0), opt_view(f.1), f.2, f.3),
        ),
{
    match json::parse(s) {
        Ok(v) => {
            let c = match v["command"].as_str() {
                Some(x) => Some(x.to_owned()),
                None => None,
            };
            let e = match v["echoed"].as_str() {
                Some(x) => Some(x.to_owned()),
                None => None,
            };
            Some((c, e, v["a"].as_i32(), v["b"].as_i32()))
        },
        Err(_) => None,
    }
}

impl Command {
    /// Turn a command name with its positional arguments into a `Command`.
    #[verifier::loop_isolation(false)]
    pub fn parse(cmd: &[String]) -> (r: Result<Command, String>)
        ensures
            parse_command_post(cmd@, r),
    {
        if cmd.len() == 0 {
            return Err(String::from_str("no command given"));
        }
        let head = slice_index_get(cmd, 0);
        if str_is(head.as_str(), "test") {
            Ok(Command::Test)
        } else if str_is(head.as_str(), "health") {
            Ok(Command::HealthCheck)
        } else if str_is(head.as_str(), "echo") {
            let n = cmd.len();
            let mut out = String::new();
            let mut i: usize = 1;
            while i < n
                invariant
                    1 <= i <= n,
                    n == cmd@.len(),
                    out@ == join_spaces(views_of(cmd@.subrange(1, i as int))),
                decreases n - i,
            {
                let ghost sofar = cmd@.subrange(1, i as int);
                if i > 1 {
                    out.append(" ");
                }
                out.append(slice_index_get(cmd, i).as_str());
                proof {
                    reveal_strlit(" ");
                    assert(" "@ =~= seq![' ']);
                    lemma_join_push(views_of(sofar), cmd@[i as int]@);
                    assert(views_of(cmd@.subrange(1, i as int + 1)) =~= views_of(sofar).push(
                        cmd@[i as int]@,
                    ));
                    if i > 1 {
                        assert(out@ =~= join_spaces(views_of(sofar)) + seq![' ']
                            + cmd@[i as int]@);
                    } else {
                        assert(views_of(sofar).len() == 0);
                    }
                }
                i += 1;
            }
            proof {
                assert(cmd@.subrange(1, n as int) == cmd@.subrange(1, cmd@.len() as int));
            }
            Ok(Command::Echo(out))
        } else if str_is(head.as_str(), "add") {
            if cmd.len() < 2 {
                return Err(String::from_str("a was not present"));
            }
            let a = match i32_from_string(slice_index_get(cmd, 1)) {
                Some(a) => a,
                None => {
                    return Err(String::from_str("invalid integer argument"));
                },
            };
            if cmd.len() < 3 {
                return Err(String::from_str("b was not present"));
            }
            let b = match i32_from_string(slice_index_get(cmd, 2)) {
                Some(b) => b,
                None => {
                    return Err(String::from_str("invalid integer argument"));
                },
            };
            Ok(Command::Add(a, b))
        } else {
            let mut m = String::from_str("no such command ");
            m.append(head.as_str());
            Err(m)
        }
    }

    /// The name this command serializes under.
    pub fn name(&self) -> (r: String)
        ensures
            r@ == spec_name(*self),
    {
        match self {
            Command::Test => String::from_str("test"),
            Command::HealthCheck => String::from_str("health_check"),
            Command::Echo(_) => String::from_str("echo"),
            Command::Add(_, _) => String::from_str("add"),
        }
    }

    /// The variant-specific fields of the serialized line, if any.
    pub fn serialize_args(&self) -> (r: Option<String>)
        ensures
            r is Some <==> spec_args(*self) is Some,
            r matches Some(m) ==> spec_args(*self) matches Some(a) && m@ == a,
    {
        match self {
            Command::Echo(s) => {
                let mut out = String::from_str("\"echoed\": \"");
                out.append(s.as_str());
                out.append("\"");
                proof {
                    assert(out@ =~= "\"echoed\": \""@ + s@ + "\""@);
                }
                Some(out)
            },
            Command::Add(a, b) => {
                let mut out = String::from_str("\"a\": ");
                push_i32(&mut out, *a);
                out.append(", \"b\": ");
                push_i32(&mut out, *b);
                proof {
                    assert(out@ =~= "\"a\": "@ + int_text(*a as int) + ", \"b\": "@ + int_text(
                        *b as int,
                    ));
                }
                Some(out)
            },
            _ => None,
        }
    }

    /// Render the command as one JSON-shaped text line.
    pub fn serialize(&self) -> (r: String)
        ensures
            r@ == spec_serialize(*self),
    {
        let mut out = String::from_str("{\"command\": \"");
        let n = self.name();
        out.append(n.as_str());
        out.append("\"");
        match self.serialize_args() {
            Some(args) => {
                out.append(", ");
                out.append(args.as_str());
            },
            None => {},
        }
        out.append("}\n");
        proof {
            assert(out@ =~= spec_serialize(*self));
        }
        out
    }

    /// Build the command that a decoded line denotes, from the fields the
    /// JSON layer found.
    pub fn command_from_fields(
        cmd: Option<String>,
        echoed: Option<String>,
        a: Option<i32>,
        b: Option<i32>,
    ) -> (r: Result<Command, String>)
        ensures
            command_fields_post(opt_view(cmd), opt_view(echoed), a, b, r),
    {
        let c = match cmd {
            Some(c) => c,
            None => {
                return Err(String::from_str("no command"));
            },
        };
        if str_is(c.as_str(), "test") {
            Ok(Command::Test)
        } else if str_is(c.as_str(), "health") {
            Ok(Command::HealthCheck)
        } else if str_is(c.as_str(), "echo") {
            match echoed {
                Some(e) => Ok(Command::Echo(e)),
                None => Err(String::from_str("bad echo - no key `echoed`")),
            }
        } else if str_is(c.as_str(), "add") {
            match (a, b) {
                (Some(x), Some(y)) => Ok(Command::Add(x, y)),
                (None, None) => Err(String::from_str("missing arguments `a` and `b`")),
                (None, _) => Err(String::from_str("missing argument `a`")),
                (_, None) => Err(String::from_str("missing argument `b`")),
            }
        } else {
            Err(String::from_str("bad command"))
        }
    }

    /// Read one serialized line back: a line that is no JSON document is
    /// rejected, and otherwise the result is exactly what
    /// `command_from_fields` makes of the members the JSON layer found,
    /// which `json_fields_of` names. Note that only the name "health" is
    /// accepted for a health check, while `serialize` writes
    /// "health_check", as the protocol has always done.
    pub fn deserialize(blob: &str) -> (r: Result<Command, String>)
        ensures
            json_fields_of(blob@) is None ==> (r matches Err(m) && m@ == "invalid json"@),
            json_fields_of(blob@) matches Some(g) ==> command_fields_post(
                g.0,
                g.1,
                g.2,
                g.3,
                r,
            ),
    {
        match json_fields(blob) {
            Some((cmd, echoed, a, b)) => Self::command_from_fields(cmd, echoed, a, b),
            None => Err(String::from_str("invalid json")),
        }
    }
}

} // verus!
