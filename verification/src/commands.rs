use vstd::prelude::*;
use vstd::string::StrSliceExecFns;
use vstd::string::StringSliceAdditionalSpecFns;

use crate::parser::copy_range;
use crate::value::Value;
use crate::value::ValueModel;
use crate::value::bytes_eq;
use crate::value::bytes_views;
use crate::value::clone_bytes;
use crate::value::to_upper;
use crate::value::upper_bytes;
use crate::value::value_model;

verus! {

/// Why a command refused its arguments.
#[derive(Clone, Copy, Debug, PartialEq, Eq, Structural)]
pub enum CommandError {
    /// ECHO was given nothing to echo.
    EchoMissingArgument,
    /// SET was not given both a key and a value.
    SetMissingKeyValue,
}

/// A command that answers with a fixed greeting.
pub struct PingCommand;

impl PingCommand {
    pub fn new() -> PingCommand {
        PingCommand
    }

    /// PING answers PONG whatever its arguments.
    pub fn execute(&self, args: &Vec<Vec<u8>>) -> (r: Result<Value, CommandError>)
        ensures
            r matches Ok(v) && value_model(v) == ValueModel::SimpleString(
                "PONG".spec_bytes(),
            ),
    {
        Ok(Value::SimpleString("PONG".as_bytes_vec()))
    }
}

/// A command that hands its argument back.
pub struct EchoCommand {
    message: Vec<u8>,
}

impl EchoCommand {
    /// The fallback message given at construction.
    pub closed spec fn spec_message(&self) -> Seq<u8> {
        self.message@
    }

    pub fn new(message: Vec<u8>) -> (r: EchoCommand)
        ensures
            r.spec_message() == message@,
    {
        EchoCommand { message }
    }

    /// ECHO answers its first argument, else the constructed message,
    /// and refuses when both are missing.
    pub fn execute(&self, args: &Vec<Vec<u8>>) -> (r: Result<Value, CommandError>)
        ensures
            match r {
                Ok(v) => value_model(v) == (if args@.len() > 0 {
                    ValueModel::BulkString(args@[0]@)
                } else {
                    ValueModel::BulkString(self.spec_message())
                }),
                Err(e) => args@.len() == 0 && self.spec_message().len() == 0
                    && e == CommandError::EchoMissingArgument,
            },
            r is Err <==> args@.len() == 0 && self.spec_message().len() == 0,
    {
        if args.len() > 0 {
            Ok(Value::BulkString(clone_bytes(&args[0])))
        } else if self.message.len() > 0 {
            Ok(Value::BulkString(clone_bytes(&self.message)))
        } else {
            Err(CommandError::EchoMissingArgument)
        }
    }
}

/// A command that lists what the service understands.
pub struct HelpCommand;

impl HelpCommand {
    pub fn new() -> HelpCommand {
        HelpCommand
    }

    /// HELP answers the fixed command listing.
    pub fn execute(&self, args: &Vec<Vec<u8>>) -> (r: Result<Value, CommandError>)
        ensures
            r matches Ok(v) && value_model(v) == ValueModel::BulkString(
                crate::executor::spec_help_text(),
            ),
    {
        Ok(Value::BulkString("Available commands:\nPING - Test connection\nECHO <message> - Echo back a message\nGET <key> - Get value for key\nSET <key> <value> - Set key to value\nDEL <key> [<key> ...] - Delete keys\nHELP - Show this help".as_bytes_vec()))
    }
}

/// A command that acknowledges a well-formed store request.
pub struct SetCommand {
    key_value: Vec<u8>,
}

impl SetCommand {
    /// The raw key-and-value text given at construction.
    pub closed spec fn spec_key_value(&self) -> Seq<u8> {
        self.key_value@
    }

    pub fn new(key_value: Vec<u8>) -> (r: SetCommand)
        ensures
            r.spec_key_value() == key_value@,
    {
        SetCommand { key_value }
    }

    /// SET acknowledges with OK once given a key and a value.
    pub fn execute(&self, args: &Vec<Vec<u8>>) -> (r: Result<Value, CommandError>)
        ensures
            match r {
                Ok(v) => args@.len() >= 2 && value_model(v) == ValueModel::SimpleString(
                    "OK".spec_bytes(),
                ),
                Err(e) => args@.len() < 2 && e == CommandError::SetMissingKeyValue,
            },
    {
        if args.len() < 2 {
            Err(CommandError::SetMissingKeyValue)
        } else {
            Ok(Value::SimpleString("OK".as_bytes_vec()))
        }
    }
}

/// The closed set of request-line commands.
pub enum CommandsList {
    Ping(PingCommand),
    Echo(EchoCommand),
    Help(HelpCommand),
    SetCmd(SetCommand),
}

impl CommandsList {
    /// Builds the command a request line names. ECHO and SET insist on a
    /// non-empty argument text; an unknown name builds nothing.
    pub fn from_command_type(cmd_type: &[u8], args: &[u8]) -> (r: Option<CommandsList>)
        ensures
            (r is Some) == (cmd_type@ == "PING".spec_bytes() || cmd_type@
                == "HELP".spec_bytes() || ((cmd_type@ == "ECHO".spec_bytes() || cmd_type@
                == "SET".spec_bytes()) && args@.len() > 0)),
            cmd_type@ == "PING".spec_bytes() ==> r matches Some(CommandsList::Ping(..)),
            cmd_type@ == "HELP".spec_bytes() ==> r matches Some(CommandsList::Help(..)),
            cmd_type@ == "ECHO".spec_bytes() && args@.len() > 0 ==> (r matches Some(
                CommandsList::Echo(e),
            ) && e.spec_message() == args@),
            cmd_type@ == "SET".spec_bytes() && args@.len() > 0 ==> (r matches Some(
                CommandsList::SetCmd(s),
            ) && s.spec_key_value() == args@),
    {
        proof {
            crate::executor::lemma_cmd_bytes();
        }
        if bytes_eq(cmd_type, "PING".as_bytes()) {
            Some(CommandsList::Ping(PingCommand::new()))
        } else if bytes_eq(cmd_type, "ECHO".as_bytes()) {
            if args.len() > 0 {
                Some(CommandsList::Echo(EchoCommand::new(copy_range(args, 0, args.len()))))
            } else {
                None
            }
        } else if bytes_eq(cmd_type, "SET".as_bytes()) {
            if args.len() > 0 {
                Some(CommandsList::SetCmd(SetCommand::new(copy_range(args, 0, args.len()))))
            } else {
                None
            }
        } else if bytes_eq(cmd_type, "HELP".as_bytes()) {
            Some(CommandsList::Help(HelpCommand::new()))
        } else {
            None
        }
    }

    /// Runs the built command on string arguments.
    pub fn execute_with_args(&self, args: &Vec<Vec<u8>>) -> (r: Result<Value, CommandError>)
        ensures
            match self {
                CommandsList::Ping(..) => r matches Ok(v) && value_model(v)
                    == ValueModel::SimpleString("PONG".spec_bytes()),
                CommandsList::Help(..) => r matches Ok(v) && value_model(v)
                    == ValueModel::BulkString(crate::executor::spec_help_text()),
                CommandsList::Echo(c) => (r matches Ok(v) ==> value_model(v)
                    == ValueModel::BulkString(if args@.len() > 0 {
                    args@[0]@
                } else {
                    c.spec_message()
                })) && ((r is Err) <==> args@.len() == 0 && c.spec_message().len() == 0),
                CommandsList::SetCmd(..) => match r {
                    Ok(v) => args@.len() >= 2 && value_model(v) == ValueModel::SimpleString(
                        "OK".spec_bytes(),
                    ),
                    Err(e) => args@.len() < 2 && e == CommandError::SetMissingKeyValue,
                },
            },
    {
        match self {
            CommandsList::Ping(cmd) => cmd.execute(args),
            CommandsList::Echo(cmd) => cmd.execute(args),
            CommandsList::Help(cmd) => cmd.execute(args),
            CommandsList::SetCmd(cmd) => cmd.execute(args),
        }
    }
}

/// The closed set of command names.
#[derive(Clone, Copy, Debug, PartialEq, Eq, Structural)]
pub enum CommandType {
    Ping,
    Echo,
    Help,
    SetCmd,
}

impl CommandType {
    /// Reads a command name, in any letter case.
    pub fn from_command_type(cmd_type: &[u8]) -> (r: Option<CommandType>)
        ensures
            r == (if upper_bytes(cmd_type@) == "PING".spec_bytes() {
                Some(CommandType::Ping)
            } else if upper_bytes(cmd_type@) == "ECHO".spec_bytes() {
                Some(CommandType::Echo)
            } else if upper_bytes(cmd_type@) == "HELP".spec_bytes() {
                Some(CommandType::Help)
            } else if upper_bytes(cmd_type@) == "SET".spec_bytes() {
                Some(CommandType::SetCmd)
            } else {
                None::<CommandType>
            }),
    {
        let upper_vec = to_upper(cmd_type);
        let upper = upper_vec.as_slice();
        if bytes_eq(upper, "PING".as_bytes()) {
            Some(CommandType::Ping)
        } else if bytes_eq(upper, "ECHO".as_bytes()) {
            Some(CommandType::Echo)
        } else if bytes_eq(upper, "HELP".as_bytes()) {
            Some(CommandType::Help)
        } else if bytes_eq(upper, "SET".as_bytes()) {
            Some(CommandType::SetCmd)
        } else {
            None
        }
    }
}

/// Index of the first space in `s`.
pub open spec fn space_pos(s: Seq<u8>) -> Option<int>
    decreases s.len(),
{
    if s.len() == 0 {
        None
    } else if s[0] == 32 {
        Some(0)
    } else {
        match space_pos(s.drop_first()) {
            None => None,
            Some(i) => Some(i + 1),
        }
    }
}

proof fn lemma_space_pos_char(s: Seq<u8>)
    ensures
        match space_pos(s) {
            Some(p) => 0 <= p < s.len() && s[p] == 32 && (forall|j: int|
                0 <= j < p ==> #[trigger] s[j] != 32),
            None => forall|j: int| 0 <= j < s.len() ==> #[trigger] s[j] != 32,
        },
    decreases s.len(),
{
    if s.len() == 0 {
    } else if s[0] == 32 {
    } else {
        lemma_space_pos_char(s.drop_first());
        let t = s.drop_first();
        match space_pos(s) {
            None => {
                assert forall|j: int| 0 <= j < s.len() implies #[trigger] s[j] != 32 by {
                    if j > 0 {
                        assert(t[j - 1] == s[j]);
                    }
                }
            },
            Some(p) => {
                assert(space_pos(t) == Some(p - 1));
                assert(t[p - 1] == s[p]);
                assert forall|j: int| 0 <= j < p implies #[trigger] s[j] != 32 by {
                    if j > 0 {
                        assert(t[j - 1] == s[j]);
                    }
                }
            },
        }
    }
}

/// A request line cut at its first space: the name, and the rest (empty
/// when there is no space).
pub open spec fn spec_command_parts(s: Seq<u8>) -> (Seq<u8>, Seq<u8>) {
    match space_pos(s) {
        Some(i) => (s.take(i), s.skip(i + 1)),
        None => (s, Seq::empty()),
    }
}

/// Cuts a request line into an upper-cased command name and the argument
/// text after the first space.
#[verifier::loop_isolation(false)]
pub fn parse_command_parts(request: &[u8]) -> (r: Option<(Vec<u8>, Vec<u8>)>)
    ensures
        r matches Some((cmd, rest)) && cmd@ == upper_bytes(spec_command_parts(request@).0)
            && rest@ == spec_command_parts(request@).1,
{
    proof {
        lemma_space_pos_char(request@);
    }
    let n = request.len();
    let mut i: usize = 0;
    while i < n
        invariant
            i <= n,
            n == request@.len(),
            forall|j: int| 0 <= j < i ==> #[trigger] request@[j] != 32,
        decreases n - i,
    {
        if request[i] == 32 {
            proof {
                assert(space_pos(request@) == Some(i as int)) by {
                    if space_pos(request@) is None {
                        assert(request@[i as int] != 32);
                    } else {
                        let p = space_pos(request@)->0;
                        if p < i {
                            assert(request@[p] != 32);
                        }
                        if p > i {
                            assert(request@[i as int] != 32);
                        }
                    }
                }
            }
            let name = copy_range(request, 0, i);
            let rest = copy_range(request, i + 1, n);
            proof {
                assert(request@.subrange(0, i as int) =~= request@.take(i as int));
                assert(request@.subrange(i + 1, n as int) =~= request@.skip(i + 1));
            }
            return Some((to_upper(name.as_slice()), rest));
        }
        i = i + 1;
    }
    proof {
        if space_pos(request@) is Some {
            let p = space_pos(request@)->0;
            assert(request@[p] != 32);
            assert(false);
        }
    }
    let name = copy_range(request, 0, n);
    proof {
        assert(request@.subrange(0, n as int) =~= request@);
    }
    Some((to_upper(name.as_slice()), Vec::new()))
}

/// Builds the command a raw request line asks for, if it names one.
pub fn get_command_instance(request: &[u8]) -> (r: Option<CommandsList>)
    ensures
        ({
            let cmd = upper_bytes(spec_command_parts(request@).0);
            let args = spec_command_parts(request@).1;
            &&& (r is Some) == (cmd == "PING".spec_bytes() || cmd == "HELP".spec_bytes() || ((
            cmd == "ECHO".spec_bytes() || cmd == "SET".spec_bytes()) && args.len() > 0))
            &&& cmd == "PING".spec_bytes() ==> (r matches Some(CommandsList::Ping(..)))
            &&& cmd == "HELP".spec_bytes() ==> (r matches Some(CommandsList::Help(..)))
            &&& cmd == "ECHO".spec_bytes() && args.len() > 0 ==> (r matches Some(
                CommandsList::Echo(e),
            ) && e.spec_message() == args)
            &&& cmd == "SET".spec_bytes() && args.len() > 0 ==> (r matches Some(
                CommandsList::SetCmd(s),
            ) && s.spec_key_value() == args)
        }),
{
    match parse_command_parts(request) {
        Some((cmd_type, args)) => CommandsList::from_command_type(
            cmd_type.as_slice(),
            args.as_slice(),
        ),
        None => None,
    }
}

/// An ASCII whitespace byte: space, tab, line feed, form feed or
/// carriage return.
pub open spec fn is_ws(b: u8) -> bool {
    b == 32 || b == 9 || b == 10 || b == 12 || b == 13
}

/// Length of the run of non-whitespace bytes at the front of `s`.
pub open spec fn token_len(s: Seq<u8>) -> nat
    decreases s.len(),
{
    if s.len() == 0 {
        0
    } else if is_ws(s[0]) {
        0
    } else {
        1 + token_len(s.drop_first())
    }
}

proof fn lemma_token_len_char(s: Seq<u8>)
    ensures
        token_len(s) <= s.len(),
        forall|i: int| 0 <= i < token_len(s) ==> !is_ws(#[trigger] s[i]),
        token_len(s) < s.len() ==> is_ws(s[token_len(s) as int]),
    decreases s.len(),
{
    if s.len() == 0 {
    } else if is_ws(s[0]) {
    } else {
        lemma_token_len_char(s.drop_first());
        let t = s.drop_first();
        assert forall|i: int| 0 <= i < token_len(s) implies !is_ws(#[trigger] s[i]) by {
            if i > 0 {
                assert(t[i - 1] == s[i]);
            }
        }
        if token_len(s) < s.len() {
            assert(t[token_len(s) as int - 1] == s[token_len(s) as int]);
        }
    }
}

/// The maximal runs of non-whitespace bytes in `s`, in order.
pub open spec fn spec_tokens(s: Seq<u8>) -> Seq<Seq<u8>>
    decreases s.len(),
{
    if s.len() == 0 {
        Seq::empty()
    } else if is_ws(s[0]) {
        spec_tokens(s.drop_first())
    } else {
        let j = token_len(s) as int;
        if 1 <= j <= s.len() {
            seq![s.take(j)] + spec_tokens(s.skip(j))
        } else {
            Seq::empty()
        }
    }
}

/// Where the token starting at `from` ends.
#[verifier::loop_isolation(false)]
fn token_end(input: &[u8], from: usize) -> (r: usize)
    requires
        from <= input@.len(),
    ensures
        from <= r <= input@.len(),
        forall|idx: int| from <= idx < r ==> !is_ws(#[trigger] input@[idx]),
        r < input@.len() ==> is_ws(input@[r as int]),
{
    let n = input.len();
    let mut j: usize = from;
    while j < n
        invariant
            from <= j <= n,
            forall|idx: int| from <= idx < j ==> !is_ws(#[trigger] input@[idx]),
        decreases n - j,
    {
        let b = input[j];
        if b == 32 || b == 9 || b == 10 || b == 12 || b == 13 {
            return j;
        }
        j = j + 1;
    }
    n
}

/// Splits a request into whitespace-separated words.
#[verifier::loop_isolation(false)]
pub fn tokenize_command(input: &[u8]) -> (r: Vec<Vec<u8>>)
    ensures
        bytes_views(r@) == spec_tokens(input@),
{
    let s = input;
    let ghost whole = input@;
    let n = s.len();
    let mut toks: Vec<Vec<u8>> = Vec::new();
    let mut i: usize = 0;
    proof {
        assert(whole.skip(0) =~= whole);
        assert(bytes_views(toks@) =~= Seq::<Seq<u8>>::empty());
    }
    while i < n
        invariant
            i <= n,
            spec_tokens(whole) == bytes_views(toks@) + spec_tokens(whole.skip(i as int)),
        decreases n - i,
    {
        let b = s[i];
        if b == 32 || b == 9 || b == 10 || b == 12 || b == 13 {
            proof {
                assert(whole.skip(i as int).drop_first() =~= whole.skip(i + 1));
            }
            i = i + 1;
        } else {
            let j = token_end(s, i);
            let ghost sub = whole.skip(i as int);
            proof {
                lemma_token_len_char(sub);
                assert(forall|idx: int| 0 <= idx < j - i ==> sub[idx] == whole[i + idx]);
                assert(token_len(sub) == j - i) by {
                    if token_len(sub) < j - i {
                        assert(is_ws(sub[token_len(sub) as int]));
                        assert(!is_ws(whole[i + token_len(sub)]));
                    }
                    if token_len(sub) > j - i {
                        assert(!is_ws(sub[j - i]));
                        assert(j < n);
                        assert(is_ws(whole[j as int]));
                    }
                }
                assert(sub.take(j - i) =~= whole.subrange(i as int, j as int));
                assert(sub.skip(j - i) =~= whole.skip(j as int));
            }
            let tok = copy_range(s, i, j);
            let ghost toks_pre = toks@;
            toks.push(tok);
            proof {
                assert(bytes_views(toks@) =~= bytes_views(toks_pre).push(
                    whole.subrange(i as int, j as int),
                ));
                assert(bytes_views(toks_pre) + (seq![whole.subrange(i as int, j as int)]
                    + spec_tokens(whole.skip(j as int))) =~= bytes_views(toks@)
                    + spec_tokens(whole.skip(j as int)));
            }
            i = j;
        }
    }
    proof {
        assert(whole.skip(n as int) =~= Seq::<u8>::empty());
        assert(bytes_views(toks@) + Seq::<Seq<u8>>::empty() =~= bytes_views(toks@));
    }
    toks
}

/// The first word of a tokenized request, if any.
pub fn extract_command_name(parts: &[Vec<u8>]) -> (r: Option<Vec<u8>>)
    ensures
        match r {
            Some(v) => parts@.len() > 0 && v@ == parts@[0]@,
            None => parts@.len() == 0,
        },
{
    if parts.len() == 0 {
        None
    } else {
        Some(clone_bytes(&parts[0]))
    }
}

} // verus!
