//! The engine contract that a server dispatches through, and the choice of
//! the engine that a data directory is bound to.
use crate::error::{kind_message, KVError, KVErrorKind};
use crate::protocol::{
    decode_command, encode_response, lemma_response_round_trip, parse_command, parse_response,
    response_bytes, Command, Response,
};
use vstd::prelude::*;
use vstd::string::StrSliceExecFns;

verus! {

/// A key-value storage engine: three operations on owned strings. Its
/// implementations live with the file system or the database they use.
pub trait KvsEngine {
    /// The value of `key`, if it is set.
    fn get(&self, key: String) -> Result<Option<String>, KVError>;

    /// Sets `key` to `val`.
    fn set(&self, key: String, val: String) -> Result<(), KVError>;

    /// Removes `key`; `KeyNotFound` when it is not set.
    fn remove(&self, key: String) -> Result<(), KVError>;
}

/// Runs one command on `engine` and builds the response: a failure carries
/// the text of the error's kind; a successful update carries no text.
pub fn handle_command<E: KvsEngine>(engine: &E, cmd: Command) -> (r: Response)
    ensures
        !r.success ==> exists|kind: KVErrorKind| r.message@ == kind_message(kind),
        r.success && !(cmd is Get) ==> r.message@ == Seq::<char>::empty(),
{
    match cmd {
        Command::Get { key } => Response::for_get(engine.get(key)),
        Command::Put { key, val } => Response::for_update(engine.set(key, val)),
        Command::Remove { key } => Response::for_update(engine.remove(key)),
    }
}

/// Answers one request body: decodes the command, runs it on `engine` and
/// encodes the response. A body that is not a command gets a failure that
/// says so; whatever happens, the answer is a well-formed response, whose
/// failures carry the text of an error kind and whose successful updates
/// carry no text.
pub fn serve_request<E: KvsEngine>(engine: &E, body: &[u8]) -> (r: Vec<u8>)
    ensures
        parse_command(body@) is None ==> r@ == response_bytes(
            false,
            kind_message(KVErrorKind::JsonError),
        ),
        parse_response(r@) is Some,
        parse_command(body@) is Some ==> (parse_response(r@) matches Some((ok, m)) && (!ok
            ==> exists|kind: KVErrorKind| m == kind_message(kind)) && (ok && !(parse_command(
            body@,
        ).unwrap() is Get) ==> m == Seq::<char>::empty())),
{
    let response = match decode_command(body) {
        Some(cmd) => {
            let ghost was_get = cmd is Get;
            assert(was_get == (cmd@ is Get));
            handle_command(engine, cmd)
        },
        None => Response::failure(KVErrorKind::JsonError.message()),
    };
    let r = encode_response(&response);
    proof {
        lemma_response_round_trip(response.success, response.message@);
    }
    r
}

/// The storage engines a server can run.
#[derive(Debug, Clone, Copy, PartialEq, Eq, Structural)]
pub enum Engine {
    Kvs,
    Sled,
}

/// The name of an engine as the metadata file stores it.
pub open spec fn engine_name(e: Engine) -> Seq<char> {
    match e {
        Engine::Kvs => seq!['k', 'v', 's'],
        Engine::Sled => seq!['s', 'l', 'e', 'd'],
    }
}

fn text_is(s: &str, w: &[char]) -> (r: bool)
    ensures
        r == (s@ == w@),
{
    let n = s.unicode_len();
    if n != w.len() {
        return false;
    }
    let mut i: usize = 0;
    while i < n
        invariant
            n == s@.len(),
            n == w@.len(),
            i <= n,
            forall|j: int| 0 <= j < i ==> s@[j] == w@[j],
        decreases n - i,
    {
        if s.get_char(i) != w[i] {
            return false;
        }
        i = i + 1;
    }
    assert(s@ =~= w@);
    true
}

impl Engine {
    /// Reads the metadata text: empty means no engine chosen yet; otherwise
    /// it names an engine, or it is an error.
    pub fn parse(s: String) -> (r: Result<Option<Engine>, String>)
        ensures
            s@.len() == 0 ==> r == Ok::<Option<Engine>, String>(None),
            s@ == engine_name(Engine::Kvs) ==> r == Ok::<Option<Engine>, String>(
                Some(Engine::Kvs),
            ),
            s@ == engine_name(Engine::Sled) ==> r == Ok::<Option<Engine>, String>(
                Some(Engine::Sled),
            ),
            s@.len() != 0 && s@ != engine_name(Engine::Kvs) && s@ != engine_name(Engine::Sled)
                ==> (r matches Err(m) && m@ == "Unknown engine type"@),
    {
        let kvs: [char; 3] = ['k', 'v', 's'];
        let sled: [char; 4] = ['s', 'l', 'e', 'd'];
        assert(kvs@ =~= engine_name(Engine::Kvs));
        assert(sled@ =~= engine_name(Engine::Sled));
        if s.as_str().unicode_len() == 0 {
            Ok(None)
        } else if text_is(s.as_str(), kvs.as_slice()) {
            Ok(Some(Engine::Kvs))
        } else if text_is(s.as_str(), sled.as_slice()) {
            Ok(Some(Engine::Sled))
        } else {
            Err("Unknown engine type".to_owned())
        }
    }

    /// The name of the engine, as stored in the metadata file.
    pub fn to_bytes(self) -> (r: Vec<u8>)
        ensures
            r@ == match self {
                Engine::Kvs => seq![107u8, 118u8, 115u8],
                Engine::Sled => seq![115u8, 108u8, 101u8, 100u8],
            },
    {
        let mut v: Vec<u8> = Vec::new();
        match self {
            Engine::Kvs => {
                v.push(107);
                v.push(118);
                v.push(115);
            },
            Engine::Sled => {
                v.push(115);
                v.push(108);
                v.push(101);
                v.push(100);
            },
        }
        assert(v@ =~= match self {
            Engine::Kvs => seq![107u8, 118u8, 115u8],
            Engine::Sled => seq![115u8, 108u8, 101u8, 100u8],
        });
        v
    }

    /// The engine a name on the command line stands for.
    pub fn from_name(s: &str) -> (r: Option<Engine>)
        ensures
            s@ == engine_name(Engine::Kvs) ==> r == Some(Engine::Kvs),
            s@ == engine_name(Engine::Sled) ==> r == Some(Engine::Sled),
            s@ != engine_name(Engine::Kvs) && s@ != engine_name(Engine::Sled) ==> r is None,
    {
        let kvs: [char; 3] = ['k', 'v', 's'];
        let sled: [char; 4] = ['s', 'l', 'e', 'd'];
        assert(kvs@ =~= engine_name(Engine::Kvs));
        assert(sled@ =~= engine_name(Engine::Sled));
        if text_is(s, kvs.as_slice()) {
            Some(Engine::Kvs)
        } else if text_is(s, sled.as_slice()) {
            Some(Engine::Sled)
        } else {
            None
        }
    }

    /// The engine to run, given the one the directory is bound to (if any)
    /// and the one asked for (if any): the bound one, unless another is asked
    /// for, which is a mismatch (`None`); with none bound, the one asked for,
    /// else `Kvs`.
    pub fn select(stored: Option<Engine>, requested: Option<Engine>) -> (r: Option<Engine>)
        ensures
            r == match (stored, requested) {
                (None, None) => Some(Engine::Kvs),
                (None, Some(e)) => Some(e),
                (Some(e), None) => Some(e),
                (Some(e), Some(q)) => if e == q {
                    Some(e)
                } else {
                    None
                },
            },
    {
        match (stored, requested) {
            (None, None) => Some(Engine::Kvs),
            (None, Some(e)) => Some(e),
            (Some(e), None) => Some(e),
            (Some(e), Some(q)) => if e == q {
                Some(e)
            } else {
                None
            },
        }
    }
}

} // verus!
