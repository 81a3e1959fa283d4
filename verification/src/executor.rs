use vstd::prelude::*;
use vstd::string::StrSliceExecFns;
use vstd::string::StringSliceAdditionalSpecFns;
use vstd::string::is_ascii;

use crate::store::Store;
use crate::value::Value;
use crate::value::ValueModel;
use crate::value::bytes_eq;
use crate::value::bytes_views;
use crate::value::clone_bytes;
use crate::value::spec_to_command;
use crate::value::value_model;

verus! {

/// The store after a run of deletions, and how many of the named keys
/// were present when their turn came: a key named twice counts once.
pub open spec fn spec_del(m: Map<Seq<u8>, ValueModel>, keys: Seq<Seq<u8>>) -> (
    Map<Seq<u8>, ValueModel>,
    int,
)
    decreases keys.len(),
{
    if keys.len() == 0 {
        (m, 0)
    } else {
        let hit = m.dom().contains(keys[0]);
        let m1 = if hit {
            m.remove(keys[0])
        } else {
            m
        };
        let rest = spec_del(m1, keys.drop_first());
        (rest.0, (if hit { 1int } else { 0int }) + rest.1)
    }
}

pub proof fn lemma_spec_del_count(m: Map<Seq<u8>, ValueModel>, keys: Seq<Seq<u8>>)
    ensures
        0 <= spec_del(m, keys).1 <= keys.len(),
    decreases keys.len(),
{
    if keys.len() > 0 {
        let hit = m.dom().contains(keys[0]);
        let m1 = if hit {
            m.remove(keys[0])
        } else {
            m
        };
        lemma_spec_del_count(m1, keys.drop_first());
    }
}

/// What executing a command does to the store, and what it replies.
/// Every command replies; a bad request replies with an error value.
pub open spec fn spec_execute(
    m: Map<Seq<u8>, ValueModel>,
    name: Seq<u8>,
    args: Seq<Seq<u8>>,
) -> (Map<Seq<u8>, ValueModel>, ValueModel) {
    if name == "PING".spec_bytes() {
        if args.len() == 0 {
            (m, ValueModel::SimpleString("PONG".spec_bytes()))
        } else {
            (m, ValueModel::BulkString(args[0]))
        }
    } else if name == "HELP".spec_bytes() {
        (m, ValueModel::BulkString(spec_help_text()))
    } else if name == "ECHO".spec_bytes() {
        if args.len() == 0 {
            (m, ValueModel::Error("ERR ECHO requires at least one argument".spec_bytes()))
        } else {
            (m, ValueModel::BulkString(args[0]))
        }
    } else if name == "GET".spec_bytes() {
        if args.len() != 1 {
            (m, ValueModel::Error("ERR GET requires a key".spec_bytes()))
        } else if m.dom().contains(args[0]) {
            (m, m[args[0]])
        } else {
            (m, ValueModel::Null)
        }
    } else if name == "SET".spec_bytes() {
        if args.len() < 2 {
            (m, ValueModel::Error("ERR SET requires a key and a value".spec_bytes()))
        } else {
            (
                m.insert(args[0], ValueModel::BulkString(args[1])),
                ValueModel::SimpleString("OK".spec_bytes()),
            )
        }
    } else if name == "DEL".spec_bytes() {
        if args.len() == 0 {
            (m, ValueModel::Error("ERR DEL requires at least one key".spec_bytes()))
        } else {
            let r = spec_del(m, args);
            (r.0, ValueModel::Integer(r.1))
        }
    } else {
        (m, ValueModel::Error("ERR Unknown command: ".spec_bytes() + name))
    }
}

/// What one decoded request does: a value that is no command request is
/// answered with an error value and leaves the store alone; an argument
/// list too long for the wire format's counters is likewise refused.
pub open spec fn spec_respond(m: Map<Seq<u8>, ValueModel>, v: ValueModel) -> (
    Map<Seq<u8>, ValueModel>,
    ValueModel,
) {
    match spec_to_command(v) {
        None => (m, ValueModel::Error("ERR invalid command format".spec_bytes())),
        Some((name, args)) => if args.len() > i64::MAX {
            (m, ValueModel::Error("ERR invalid command format".spec_bytes()))
        } else {
            spec_execute(m, name, args)
        },
    }
}

/// The fixed reply of the HELP command.
pub open spec fn spec_help_text() -> Seq<u8> {
    "Available commands:\nPING - Test connection\nECHO <message> - Echo back a message\nGET <key> - Get value for key\nSET <key> <value> - Set key to value\nDEL <key> [<key> ...] - Delete keys\nHELP - Show this help".spec_bytes()
}

/// Interprets decoded requests against the shared store. One instance
/// guards the whole table; connections share it behind a lock.
pub struct CommandExecutor {
    db: Store,
}

impl View for CommandExecutor {
    type V = Map<Seq<u8>, ValueModel>;

    closed spec fn view(&self) -> Map<Seq<u8>, ValueModel> {
        self.db@
    }
}

impl CommandExecutor {
    /// The store is well formed; `new` establishes this and every method
    /// preserves it.
    pub closed spec fn wf(self) -> bool {
        self.db.wf()
    }

    /// An executor over an empty store.
    pub fn new() -> (e: CommandExecutor)
        ensures
            e@ == Map::<Seq<u8>, ValueModel>::empty(),
            e.wf(),
    {
        CommandExecutor { db: Store::new() }
    }

    /// Runs the command `name` with `args`; the reply is always a value,
    /// and a usage mistake or unknown name replies with an error value.
    pub fn execute(&mut self, name: &Vec<u8>, args: &Vec<Vec<u8>>) -> (r: Value)
        requires
            old(self).wf(),
            args@.len() <= i64::MAX,
        ensures
            final(self).wf(),
            final(self)@ == spec_execute(old(self)@, name@, bytes_views(args@)).0,
            value_model(r) == spec_execute(old(self)@, name@, bytes_views(args@)).1,
    {
        if bytes_eq(name.as_slice(), "PING".as_bytes()) {
            self.ping(args)
        } else if bytes_eq(name.as_slice(), "HELP".as_bytes()) {
            Value::BulkString("Available commands:\nPING - Test connection\nECHO <message> - Echo back a message\nGET <key> - Get value for key\nSET <key> <value> - Set key to value\nDEL <key> [<key> ...] - Delete keys\nHELP - Show this help".as_bytes_vec())
        } else if bytes_eq(name.as_slice(), "ECHO".as_bytes()) {
            self.echo(args)
        } else if bytes_eq(name.as_slice(), "GET".as_bytes()) {
            self.get(args)
        } else if bytes_eq(name.as_slice(), "SET".as_bytes()) {
            self.set(args)
        } else {
            if bytes_eq(name.as_slice(), "DEL".as_bytes()) {
                self.del(args)
            } else {
                let mut msg = "ERR Unknown command: ".as_bytes_vec();
                crate::value::append_bytes(&mut msg, name);
                Value::Error(msg)
            }
        }
    }

    /// PING replies PONG, or echoes its first argument.
    fn ping(&self, args: &Vec<Vec<u8>>) -> (r: Value)
        ensures
            value_model(r) == (if args@.len() == 0 {
                ValueModel::SimpleString("PONG".spec_bytes())
            } else {
                ValueModel::BulkString(bytes_views(args@)[0])
            }),
    {
        if args.len() == 0 {
            Value::SimpleString("PONG".as_bytes_vec())
        } else {
            Value::BulkString(clone_bytes(&args[0]))
        }
    }

    /// ECHO replies its first argument, and needs one.
    fn echo(&self, args: &Vec<Vec<u8>>) -> (r: Value)
        ensures
            value_model(r) == (if args@.len() == 0 {
                ValueModel::Error("ERR ECHO requires at least one argument".spec_bytes())
            } else {
                ValueModel::BulkString(bytes_views(args@)[0])
            }),
    {
        if args.len() == 0 {
            Value::Error("ERR ECHO requires at least one argument".as_bytes_vec())
        } else {
            Value::BulkString(clone_bytes(&args[0]))
        }
    }

    /// GET replies the stored value, or null when the key is absent.
    fn get(&self, args: &Vec<Vec<u8>>) -> (r: Value)
        requires
            self.wf(),
        ensures
            value_model(r) == (if args@.len() != 1 {
                ValueModel::Error("ERR GET requires a key".spec_bytes())
            } else if self@.dom().contains(args@[0]@) {
                self@[args@[0]@]
            } else {
                ValueModel::Null
            }),
    {
        if args.len() != 1 {
            Value::Error("ERR GET requires a key".as_bytes_vec())
        } else {
            match self.db.get(args[0].as_slice()) {
                Some(v) => v,
                None => Value::Null,
            }
        }
    }

    /// SET stores its second argument under its first and replies OK.
    fn set(&mut self, args: &Vec<Vec<u8>>) -> (r: Value)
        requires
            old(self).wf(),
        ensures
            final(self).wf(),
            final(self)@ == (if args@.len() < 2 {
                old(self)@
            } else {
                old(self)@.insert(args@[0]@, ValueModel::BulkString(args@[1]@))
            }),
            value_model(r) == (if args@.len() < 2 {
                ValueModel::Error("ERR SET requires a key and a value".spec_bytes())
            } else {
                ValueModel::SimpleString("OK".spec_bytes())
            }),
    {
        if args.len() < 2 {
            Value::Error("ERR SET requires a key and a value".as_bytes_vec())
        } else {
            let key = clone_bytes(&args[0]);
            let val = Value::BulkString(clone_bytes(&args[1]));
            self.db.set(key, val);
            Value::SimpleString("OK".as_bytes_vec())
        }
    }

    /// DEL removes each named key and counts the removals.
    #[verifier::loop_isolation(false)]
    fn del(&mut self, args: &Vec<Vec<u8>>) -> (r: Value)
        requires
            old(self).wf(),
            args@.len() <= i64::MAX,
        ensures
            final(self).wf(),
            final(self)@ == (if args@.len() == 0 {
                old(self)@
            } else {
                spec_del(old(self)@, bytes_views(args@)).0
            }),
            value_model(r) == (if args@.len() == 0 {
                ValueModel::Error("ERR DEL requires at least one key".spec_bytes())
            } else {
                ValueModel::Integer(spec_del(old(self)@, bytes_views(args@)).1)
            }),
    {
        if args.len() == 0 {
            return Value::Error("ERR DEL requires at least one key".as_bytes_vec());
        }
        let ghost m0 = self@;
        let ghost keys = bytes_views(args@);
        let ghost total = spec_del(m0, keys);
        let n = args.len();
        let mut count: i64 = 0;
        let mut i: usize = 0;
        proof {
            assert(keys.skip(0) =~= keys);
        }
        while i < n
            invariant
                i <= n,
                0 <= count <= i,
                self.wf(),
                spec_del(self@, keys.skip(i as int)).0 == total.0,
                count + spec_del(self@, keys.skip(i as int)).1 == total.1,
            decreases n - i,
        {
            proof {
                lemma_spec_del_count(self@, keys.skip(i as int));
                assert(keys.skip(i as int)[0] == keys[i as int]);
                assert(keys.skip(i as int).drop_first() =~= keys.skip(i + 1));
                assert(args@[i as int]@ == keys[i as int]);
            }
            let ghost m_prev = self@;
            let hit = self.db.remove(args[i].as_slice());
            proof {
                if !hit {
                    assert(m_prev.remove(keys[i as int]) =~= m_prev);
                    assert(self@ =~= m_prev);
                }
            }
            if hit {
                count = count + 1;
            }
            i = i + 1;
        }
        proof {
            assert(keys.skip(n as int) =~= Seq::<Seq<u8>>::empty());
        }
        Value::Integer(count)
    }

    /// Answers one decoded request: reads it as a command, runs it, and
    /// replies; a value that is no command request is answered with an
    /// error value, and the connection's caller goes on.
    pub fn respond(&mut self, v: &Value) -> (r: Value)
        requires
            old(self).wf(),
        ensures
            final(self).wf(),
            final(self)@ == spec_respond(old(self)@, value_model(*v)).0,
            value_model(r) == spec_respond(old(self)@, value_model(*v)).1,
    {
        match v.to_command() {
            None => Value::Error("ERR invalid command format".as_bytes_vec()),
            Some((name, args)) => {
                if args.len() as u64 > 9223372036854775807u64 {
                    Value::Error("ERR invalid command format".as_bytes_vec())
                } else {
                    self.execute(&name, &args)
                }
            },
        }
    }
}

/// The byte forms of the six command names, and that they differ.
pub proof fn lemma_cmd_bytes()
    ensures
        "PING".spec_bytes() =~= seq![80u8, 73u8, 78u8, 71u8],
        "HELP".spec_bytes() =~= seq![72u8, 69u8, 76u8, 80u8],
        "ECHO".spec_bytes() =~= seq![69u8, 67u8, 72u8, 79u8],
        "GET".spec_bytes() =~= seq![71u8, 69u8, 84u8],
        "SET".spec_bytes() =~= seq![83u8, 69u8, 84u8],
        "DEL".spec_bytes() =~= seq![68u8, 69u8, 76u8],
{
    broadcast use vstd::string::is_ascii_spec_bytes;

    reveal_strlit("PING");
    reveal_strlit("HELP");
    reveal_strlit("ECHO");
    reveal_strlit("GET");
    reveal_strlit("SET");
    reveal_strlit("DEL");
    assert(is_ascii("PING"));
    assert(is_ascii("HELP"));
    assert(is_ascii("ECHO"));
    assert(is_ascii("GET"));
    assert(is_ascii("SET"));
    assert(is_ascii("DEL"));
}

/// Storing a value and reading its key back gives exactly that value as
/// a bulk string, whatever the store held before.
pub proof fn lemma_set_then_get(m: Map<Seq<u8>, ValueModel>, k: Seq<u8>, v: Seq<u8>)
    ensures
        ({
            let set_r = spec_execute(m, "SET".spec_bytes(), seq![k, v]);
            let get_r = spec_execute(set_r.0, "GET".spec_bytes(), seq![k]);
            &&& set_r.1 == ValueModel::SimpleString("OK".spec_bytes())
            &&& get_r.0 == set_r.0
            &&& get_r.1 == ValueModel::BulkString(v)
        }),
{
    lemma_cmd_bytes();
}

/// Reading an absent key gives null and leaves the store alone.
pub proof fn lemma_get_absent(m: Map<Seq<u8>, ValueModel>, k: Seq<u8>)
    requires
        !m.dom().contains(k),
    ensures
        spec_execute(m, "GET".spec_bytes(), seq![k]).0 == m,
        spec_execute(m, "GET".spec_bytes(), seq![k]).1 == ValueModel::Null,
{
    lemma_cmd_bytes();
}

/// Deleting a present key named twice counts one removal, and the key is
/// gone afterwards.
pub proof fn lemma_del_twice(m: Map<Seq<u8>, ValueModel>, k: Seq<u8>)
    requires
        m.dom().contains(k),
    ensures
        spec_execute(m, "DEL".spec_bytes(), seq![k, k]).1 == ValueModel::Integer(1),
        spec_execute(
            spec_execute(m, "DEL".spec_bytes(), seq![k, k]).0,
            "GET".spec_bytes(),
            seq![k],
        ).1 == ValueModel::Null,
{
    lemma_cmd_bytes();
    assert(seq![k, k].drop_first() =~= seq![k]);
    assert(seq![k].drop_first() =~= Seq::<Seq<u8>>::empty());
    assert(!m.remove(k).dom().contains(k));
    assert(spec_del(m.remove(k), Seq::<Seq<u8>>::empty()).1 == 0);
    assert(spec_del(m.remove(k), seq![k]).0 == m.remove(k));
    assert(spec_del(m.remove(k), seq![k]).1 == 0);
    assert(spec_del(m, seq![k, k]).1 == 1);
}

/// Deleting an absent key counts no removal and changes nothing.
pub proof fn lemma_del_absent(m: Map<Seq<u8>, ValueModel>, k: Seq<u8>)
    requires
        !m.dom().contains(k),
    ensures
        spec_execute(m, "DEL".spec_bytes(), seq![k]).0 == m,
        spec_execute(m, "DEL".spec_bytes(), seq![k]).1 == ValueModel::Integer(0),
{
    lemma_cmd_bytes();
    assert(seq![k].drop_first() =~= Seq::<Seq<u8>>::empty());
    assert(spec_del(m, Seq::<Seq<u8>>::empty()).1 == 0);
    assert(spec_del(m, seq![k]).0 == m);
    assert(spec_del(m, seq![k]).1 == 0);
}

/// Two writes to one key, serialized in either order by the store's
/// lock, leave exactly the later written value: a reader then sees one
/// of the two values whole, never a mixture.
pub proof fn lemma_last_write_wins(
    m: Map<Seq<u8>, ValueModel>,
    k: Seq<u8>,
    v1: Seq<u8>,
    v2: Seq<u8>,
)
    ensures
        ({
            let first = spec_execute(spec_execute(m, "SET".spec_bytes(), seq![k, v1]).0,
                "SET".spec_bytes(), seq![k, v2]).0;
            spec_execute(first, "GET".spec_bytes(), seq![k]).1 == ValueModel::BulkString(v2)
        }),
        ({
            let second = spec_execute(spec_execute(m, "SET".spec_bytes(), seq![k, v2]).0,
                "SET".spec_bytes(), seq![k, v1]).0;
            spec_execute(second, "GET".spec_bytes(), seq![k]).1 == ValueModel::BulkString(v1)
        }),
{
    lemma_cmd_bytes();
}

/// An echo without arguments is answered with an error value, never a
/// transport failure, and the store is untouched; with arguments, the
/// first comes back as a bulk string.
pub proof fn lemma_echo_total(m: Map<Seq<u8>, ValueModel>, args: Seq<Seq<u8>>)
    ensures
        spec_execute(m, "ECHO".spec_bytes(), args).0 == m,
        args.len() == 0 ==> spec_execute(m, "ECHO".spec_bytes(), args).1 is Error,
        args.len() > 0 ==> spec_execute(m, "ECHO".spec_bytes(), args).1
            == ValueModel::BulkString(args[0]),
{
    lemma_cmd_bytes();
}

} // verus!
