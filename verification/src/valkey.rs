//! The shared key-value store and the command dispatcher.

use vstd::prelude::*;
use vstd::string::StringExecFns;
use crate::parser::RespValue;
use crate::parser::RespModel;
use crate::parser::model_of;
use crate::parser::models_of;
use crate::parser::lemma_models_of;
use crate::parser::flat_of;
use crate::parser::text_of;
use crate::parser::crlf;
use crate::parser::wire_chars;
use crate::strutil::push_char;

verus! {

broadcast use vstd::std_specs::vec::group_vec_axioms, vstd::seq::group_seq_axioms,
    vstd::string::group_string_axioms, vstd::map::group_map_axioms;

/// The mapping that a sequence of store entries denotes: later entries for
/// the same key win.
pub open spec fn map_of(entries: Seq<(String, RespValue)>) -> Map<Seq<char>, RespModel>
    decreases entries.len(),
{
    if entries.len() == 0 {
        Map::empty()
    } else {
        map_of(entries.drop_last()).insert(entries.last().0@, model_of(entries.last().1))
    }
}

/// The in-memory key-value store: a mapping from display-text keys to
/// protocol values. Entries are only ever created or overwritten.
pub struct Store {
    pub entries: Vec<(String, RespValue)>,
}

impl View for Store {
    type V = Map<Seq<char>, RespModel>;

    open spec fn view(&self) -> Map<Seq<char>, RespModel> {
        map_of(self.entries@)
    }
}

impl Store {
    /// An empty store.
    pub fn new() -> (r: Store)
        ensures
            r@ == Map::<Seq<char>, RespModel>::empty(),
    {
        Store { entries: Vec::new() }
    }

    /// Creates or overwrites the entry for `key`.
    pub fn set(&mut self, key: String, value: RespValue)
        ensures
            final(self)@ == old(self)@.insert(key@, value@),
    {
        let ghost old_entries = self.entries@;
        self.entries.push((key, value));
        proof {
            assert(self.entries@.drop_last() =~= old_entries);
        }
    }

    /// Looks the entry for `key` up.
    pub fn get<'a>(&'a self, key: &String) -> (r: Option<&'a RespValue>)
        ensures
            r is Some <==> self@.contains_key(key@),
            r matches Some(v) ==> self@.contains_key(key@) && v@ == self@[key@],
    {
        let ghost full = self.entries@;
        let mut i = self.entries.len();
        proof {
            assert(full.take(i as int) =~= full);
        }
        while i > 0
            invariant
                i <= self.entries@.len(),
                full == self.entries@,
                map_of(full).contains_key(key@) <==> map_of(full.take(i as int)).contains_key(
                    key@,
                ),
                map_of(full).contains_key(key@) ==> map_of(full)[key@] == map_of(
                    full.take(i as int),
                )[key@],
            decreases i,
        {
            i = i - 1;
            proof {
                assert(full.take(i + 1).drop_last() =~= full.take(i as int));
                assert(full.take(i + 1).last() == full[i as int]);
            }
            if self.entries[i].0 == *key {
                return Some(&self.entries[i].1);
            }
        }
        proof {
            assert(full.take(0) =~= Seq::<(String, RespValue)>::empty());
        }
        Option::None
    }
}

/// The reply to a command whose array is too short for it.
pub open spec fn underflow_reply() -> Seq<char> {
    "-ERR wrong number of arguments\r\n"@
}

/// What the dispatcher replies to one decoded value over the given store
/// contents. A non-array is acknowledged with `+OK`; an array is read as a
/// command through its flattening, matched case-sensitively; a command
/// whose array has fewer elements than it needs draws an error reply. The
/// `set`/`get` key is the display text of the raw second array element.
pub open spec fn response_of(db: Map<Seq<char>, RespModel>, m: RespModel) -> Seq<char> {
    match m {
        RespModel::Array(vs) => {
            let f = flat_of(m);
            if f.len() == 0 {
                underflow_reply()
            } else if f[0] == "ECHO"@ {
                if f.len() >= 2 {
                    seq!['+'] + f[1] + crlf()
                } else {
                    underflow_reply()
                }
            } else if f[0] == "PING"@ {
                "+PONG\r\n"@
            } else if f[0] == "set"@ {
                if vs.len() >= 3 {
                    "+CHEESE\r\n"@
                } else {
                    underflow_reply()
                }
            } else if f[0] == "get"@ {
                if vs.len() >= 2 {
                    if db.contains_key(text_of(vs[1])) {
                        wire_chars(db[text_of(vs[1])])
                    } else {
                        wire_chars(RespModel::NullBulkString)
                    }
                } else {
                    underflow_reply()
                }
            } else {
                "+OK\r\n"@
            }
        },
        _ => "+OK\r\n"@,
    }
}

/// A command that writes the store: a `set` array with its key and value
/// elements present.
pub open spec fn is_set_command(m: RespModel) -> bool {
    match m {
        RespModel::Array(vs) => {
            let f = flat_of(m);
            f.len() >= 1 && f[0] == "set"@ && vs.len() >= 3
        },
        _ => false,
    }
}

/// What one decoded value leaves in the store: only a well-formed `set`
/// writes, keyed by the display text of the raw second element, storing the
/// raw third element.
pub open spec fn store_after(db: Map<Seq<char>, RespModel>, m: RespModel) -> Map<
    Seq<char>,
    RespModel,
> {
    if is_set_command(m) {
        db.insert(text_of(m->Array_0[1]), m->Array_0[2])
    } else {
        db
    }
}

/// Whether this command needs the exclusive write path.
pub fn wants_write(command: &RespValue) -> (r: bool)
    ensures
        r == is_set_command(command@),
{
    match command {
        RespValue::Array(arr) => {
            proof {
                lemma_models_of(arr@);
            }
            if arr.len() < 3 {
                return false;
            }
            let flat = command.flatten();
            proof {
                assert(flat.deep_view().len() == flat@.len());
                assert(forall|j: int| 0 <= j < flat@.len() ==> flat.deep_view()[j] == flat@[
                    j]@);
            }
            if flat.len() == 0 {
                return false;
            }
            let e_set = String::from_str("set");
            flat[0] == e_set
        },
        _ => false,
    }
}

/// Interprets one decoded value that does not write — anything but a
/// well-formed `set` — against the store by reference, and returns the
/// exact reply bytes, as text. Callers take only shared access for it.
pub fn handle_read_command(store: &Store, command: RespValue) -> (resp: String)
    requires
        !is_set_command(command@),
    ensures
        resp@ == response_of(store@, command@),
{
    let ghost m = command@;
    let flat = command.flatten();
    proof {
        assert(flat.deep_view().len() == flat@.len());
        assert(forall|j: int| 0 <= j < flat@.len() ==> flat.deep_view()[j] == flat@[j]@);
    }
    match command {
        RespValue::Array(arr) => {
            proof {
                lemma_models_of(arr@);
            }
            if flat.len() == 0 {
                return underflow_reply_exec();
            }
            let e_echo = String::from_str("ECHO");
            let e_ping = String::from_str("PING");
            let e_set = String::from_str("set");
            let e_get = String::from_str("get");
            if flat[0] == e_echo {
                if flat.len() >= 2 {
                    let mut s = String::new();
                    push_char(&mut s, '+');
                    s.append(flat[1].as_str());
                    crate::parser::append_crlf(&mut s);
                    proof {
                        assert(s@ =~= seq!['+'] + flat_of(m)[1] + crlf());
                    }
                    s
                } else {
                    underflow_reply_exec()
                }
            } else if flat[0] == e_ping {
                String::from_str("+PONG\r\n")
            } else if flat[0] == e_set {
                // a write command never reaches here, so its array is short
                underflow_reply_exec()
            } else if flat[0] == e_get {
                if arr.len() >= 2 {
                    let key = arr[1].textual_form();
                    proof {
                        assert(key@ == text_of(m->Array_0[1]));
                    }
                    match store.get(&key) {
                        Some(v) => v.to_stream_output(),
                        _ => {
                            let nb = RespValue::NullBulkString;
                            nb.to_stream_output()
                        },
                    }
                } else {
                    underflow_reply_exec()
                }
            } else {
                String::from_str("+OK\r\n")
            }
        },
        _ => String::from_str("+OK\r\n"),
    }
}

/// Interprets one decoded value as a command against the store and returns
/// the exact reply bytes, as text. A well-formed `set` writes its entry;
/// everything else goes through the read path unchanged.
pub fn handle_command(store: &mut Store, command: RespValue) -> (resp: String)
    ensures
        resp@ == response_of(old(store)@, command@),
        final(store)@ == store_after(old(store)@, command@),
{
    let ghost m = command@;
    if wants_write(&command) {
        match command {
            RespValue::Array(mut arr) => {
                proof {
                    lemma_models_of(arr@);
                }
                let key = arr[1].textual_form();
                let value = arr.remove(2);
                proof {
                    assert(key@ == text_of(m->Array_0[1]));
                    assert(value@ == m->Array_0[2]);
                    reveal_strlit("set");
                    reveal_strlit("ECHO");
                    reveal_strlit("PING");
                    assert(flat_of(m)[0] != "ECHO"@ && flat_of(m)[0] != "PING"@) by {
                        assert("set"@.len() == 3 && "ECHO"@.len() == 4 && "PING"@.len() == 4);
                    }
                }
                store.set(key, value);
                String::from_str("+CHEESE\r\n")
            },
            _ => vstd::pervasive::unreached(),
        }
    } else {
        handle_read_command(&*store, command)
    }
}

/// The error reply for a command array with missing arguments.
fn underflow_reply_exec() -> (r: String)
    ensures
        r@ == underflow_reply(),
{
    String::from_str("-ERR wrong number of arguments\r\n")
}

} // verus!
