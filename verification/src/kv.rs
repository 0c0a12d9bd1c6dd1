//! The request logic of a tiny key-value server that speaks a subset of
//! RESP (the Redis protocol): `SET`, `GET` and `PING`.

use vstd::prelude::*;
use vstd::hash_map::StringHashMap;
use vstd::string::StringSliceAdditionalSpecFns;
use vstd::string::StrSliceExecFns;
use vstd::utf8::{valid_utf8, decode_utf8, encode_utf8};
use crate::text::{
    lines, lines_from, line_end, lemma_line_end, starts_with, find_line_end, has_prefix, chars_of,
    push_char, same_text, decimal, decimal_text,
};

verus! {

/// The text `String::from_utf8_lossy` makes of `bytes`: the decoded text
/// when the bytes are valid UTF-8, otherwise the decoded text with each
/// invalid sequence replaced by U+FFFD.
pub uninterp spec fn lossy_text(bytes: Seq<u8>) -> Seq<char>;

/// What `str::to_uppercase` makes of `s` (Unicode upper-case mapping).
pub uninterp spec fn uppercase(s: Seq<char>) -> Seq<char>;

/// What `str::to_lowercase` makes of `s` (Unicode lower-case mapping).
pub uninterp spec fn lowercase(s: Seq<char>) -> Seq<char>;

/// `String::from_utf8_lossy(bytes)`, as an owned string. Its result is
/// named by `lossy_text`; for valid UTF-8 it is the decoded text, as the
/// documentation of `from_utf8_lossy` says. How invalid sequences are
/// replaced is not stated here.
#[verifier::external_body]
fn utf8_lossy(bytes: &[u8]) -> (text: String)
    ensures
        text@ == lossy_text(bytes@),
        valid_utf8(bytes@) ==> text@ == decode_utf8(bytes@),
{
    String::from_utf8_lossy(bytes).into_owned()
}

/// `str::to_uppercase`; the result is named by `uppercase`.
#[verifier::external_body]
fn to_upper(s: &str) -> (up: String)
    ensures
        up@ == uppercase(s@),
{
    s.to_uppercase()
}

/// `str::to_lowercase`; the result is named by `lowercase`.
#[verifier::external_body]
fn to_lower(s: &str) -> (low: String)
    ensures
        low@ == lowercase(s@),
{
    s.to_lowercase()
}

/// A request, as the server understands it.
pub enum Command {
    SetValue(String, String),
    Get(String),
    Ping,
    Unknown,
}

/// The model of a request.
pub enum Request {
    SetValue(Seq<char>, Seq<char>),
    Get(Seq<char>),
    Ping,
    Unknown,
}

impl View for Command {
    type V = Request;

    open spec fn view(&self) -> Request {
        match self {
            Command::SetValue(k, v) => Request::SetValue(k@, v@),
            Command::Get(k) => Request::Get(k@),
            Command::Ping => Request::Ping,
            Command::Unknown => Request::Unknown,
        }
    }
}

/// The lines that follow `$` lines, from line `i` on: a line starting with
/// `$` announces that the next line is an argument; other lines are skipped.
pub open spec fn resp_args(ls: Seq<Seq<char>>, i: int) -> Seq<Seq<char>>
    decreases ls.len() - i,
{
    if i < 0 || i >= ls.len() {
        Seq::empty()
    } else if starts_with(ls[i], "$"@) {
        if i + 1 < ls.len() {
            seq![ls[i + 1]] + resp_args(ls, i + 2)
        } else {
            Seq::empty()
        }
    } else {
        resp_args(ls, i + 1)
    }
}

/// The arguments of a RESP array in `text`: none (`None`) unless its first
/// line starts with `*`; then the lines announced by `$` lines.
pub open spec fn request_args(text: Seq<char>) -> Option<Seq<Seq<char>>> {
    let ls = lines(text);
    if ls.len() == 0 || !starts_with(ls[0], "*"@) {
        None
    } else {
        Some(resp_args(ls, 1))
    }
}

/// The request that upper-cased arguments make: `SET key value` and `GET
/// key` take the key lower-cased; `PING` ignores further arguments;
/// anything else is unknown.
pub open spec fn request_of_parts(parts: Seq<Seq<char>>) -> Request {
    if parts.len() == 3 && parts[0] == "SET"@ {
        Request::SetValue(lowercase(parts[1]), parts[2])
    } else if parts.len() == 2 && parts[0] == "GET"@ {
        Request::Get(lowercase(parts[1]))
    } else if parts.len() > 0 && parts[0] == "PING"@ {
        Request::Ping
    } else {
        Request::Unknown
    }
}

/// The request a RESP array denotes: the bytes are decoded (invalid UTF-8
/// replaced), the arguments found and upper-cased, and the command read
/// from them.
pub open spec fn parse_request(bytes: Seq<u8>) -> Request {
    match request_args(lossy_text(bytes)) {
        None => Request::Unknown,
        Some(args) => request_of_parts(args.map_values(|a: Seq<char>| uppercase(a))),
    }
}

/// The arguments of the RESP array in `text` (see `request_args`), as
/// written: `None` unless the first line starts with `*`.
pub fn resp_arguments(text: &str) -> (args: Option<Vec<String>>)
    ensures
        match args {
            None => request_args(text@) is None,
            Some(v) => request_args(text@) == Some(v@.map_values(|p: String| p@)),
        },
{
    let chars = chars_of(text);
    let ghost ls = lines(chars@);
    if chars.len() == 0 {
        return None;
    }
    let (first_end, mut next) = find_line_end(&chars, 0);
    proof {
        reveal_strlit("*");
        lemma_line_end(chars@, 0);
        let e = line_end(chars@, 0);
        let raw = chars@.subrange(0, e);
        if e < chars@.len() && raw.len() > 0 && raw.last() == '\r' {
            assert(raw.drop_last() =~= chars@.subrange(0, first_end as int));
        }
        assert(ls.drop_first() =~= lines_from(chars@, next as int));
    }
    if !has_prefix(&chars, 0, first_end, "*") {
        return None;
    }
    let mut parts: Vec<String> = Vec::new();
    let ghost mut li: int = 1;
    while next < chars.len()
        invariant
            chars@ == text@,
            ls == lines(chars@),
            ls.len() >= 1,
            1 <= li <= ls.len(),
            next <= chars@.len(),
            lines_from(chars@, next as int) == ls.skip(li),
            parts@.map_values(|p: String| p@) + resp_args(ls, li) == resp_args(ls, 1),
        decreases chars@.len() - next,
    {
        let (end, after) = find_line_end(&chars, next);
        proof {
            lemma_line_end(chars@, next as int);
            let e = line_end(chars@, next as int);
            let raw = chars@.subrange(next as int, e);
            if e < chars@.len() && raw.len() > 0 && raw.last() == '\r' {
                assert(raw.drop_last() =~= chars@.subrange(next as int, end as int));
            }
            assert(lines_from(chars@, next as int).len() > 0);
            assert(ls.skip(li)[0] == ls[li]);
            assert(ls[li] == chars@.subrange(next as int, end as int));
            assert(ls.skip(li + 1) =~= ls.skip(li).drop_first());
            assert(lines_from(chars@, after as int) == ls.skip(li + 1));
        }
        let ghost before = parts@.map_values(|p: String| p@);
        if has_prefix(&chars, next, end, "$") {
            if after < chars.len() {
                let (vend, vafter) = find_line_end(&chars, after);
                proof {
                    reveal_strlit("$");
                    lemma_line_end(chars@, after as int);
                    let e = line_end(chars@, after as int);
                    let raw = chars@.subrange(after as int, e);
                    if e < chars@.len() && raw.len() > 0 && raw.last() == '\r' {
                        assert(raw.drop_last() =~= chars@.subrange(after as int, vend as int));
                    }
                    assert(ls.skip(li + 1)[0] == ls[li + 1]);
                    assert(ls[li + 1] == chars@.subrange(after as int, vend as int));
                    assert(ls.skip(li + 2) =~= ls.skip(li + 1).drop_first());
                }
                let mut value = String::new();
                let mut k = after;
                while k < vend
                    invariant
                        after <= k <= vend <= chars@.len(),
                        value@ == chars@.subrange(after as int, k as int),
                    decreases vend - k,
                {
                    push_char(&mut value, chars[k]);
                    assert(chars@.subrange(after as int, k + 1) =~= chars@.subrange(
                        after as int,
                        k as int,
                    ).push(chars@[k as int]));
                    k = k + 1;
                }
                parts.push(value);
                proof {
                    assert(parts@.map_values(|p: String| p@) =~= before.push(ls[li + 1]));
                    assert(parts@.map_values(|p: String| p@) + resp_args(ls, li + 2) =~= before
                        + resp_args(ls, li));
                    li = li + 2;
                }
                next = vafter;
            } else {
                proof {
                    assert(lines_from(chars@, after as int) =~= Seq::<Seq<char>>::empty());
                    assert(li + 1 >= ls.len());
                    assert(resp_args(ls, li) =~= Seq::<Seq<char>>::empty());
                    li = li + 1;
                }
                next = after;
            }
        } else {
            proof {
                reveal_strlit("$");
                li = li + 1;
            }
            next = after;
        }
    }
    proof {
        assert(lines_from(chars@, next as int) =~= Seq::<Seq<char>>::empty());
        assert(li >= ls.len());
        assert(parts@.map_values(|p: String| p@) + Seq::<Seq<char>>::empty() =~= parts@.map_values(
            |p: String| p@,
        ));
    }
    Some(parts)
}

/// The command that upper-cased arguments make (see `request_of_parts`).
pub fn command_from_parts(parts: &Vec<String>) -> (command: Command)
    ensures
        command@ == request_of_parts(parts@.map_values(|p: String| p@)),
{
    proof {
        reveal_strlit("SET");
        reveal_strlit("GET");
        reveal_strlit("PING");
    }
    let ghost pv = parts@.map_values(|p: String| p@);
    if parts.len() == 3 && same_text(parts[0].as_str(), "SET") {
        assert(pv[1] == parts@[1]@);
        Command::SetValue(to_lower(parts[1].as_str()), parts[2].clone())
    } else if parts.len() == 2 && same_text(parts[0].as_str(), "GET") {
        Command::Get(to_lower(parts[1].as_str()))
    } else if parts.len() > 0 && same_text(parts[0].as_str(), "PING") {
        Command::Ping
    } else {
        Command::Unknown
    }
}

/// Parse a RESP array of bulk strings into a command.
pub fn parse_resp_array(input: &[u8]) -> (command: Command)
    ensures
        command@ == parse_request(input@),
{
    let text = utf8_lossy(input);
    let args = match resp_arguments(text.as_str()) {
        None => return Command::Unknown,
        Some(args) => args,
    };
    let ghost av = args@.map_values(|p: String| p@);
    let mut parts: Vec<String> = Vec::new();
    let mut k: usize = 0;
    while k < args.len()
        invariant
            k <= args@.len(),
            av == args@.map_values(|p: String| p@),
            parts@.map_values(|p: String| p@) == av.take(k as int).map_values(
                |a: Seq<char>| uppercase(a),
            ),
        decreases args@.len() - k,
    {
        let up = to_upper(args[k].as_str());
        assert(av[k as int] == args@[k as int]@);
        let ghost before = parts@.map_values(|p: String| p@);
        parts.push(up);
        assert(parts@.map_values(|p: String| p@) =~= before.push(uppercase(av[k as int])));
        assert(av.take(k + 1) =~= av.take(k as int).push(av[k as int]));
        assert(parts@.map_values(|p: String| p@) =~= av.take(k + 1).map_values(
            |a: Seq<char>| uppercase(a),
        ));
        k = k + 1;
    }
    assert(av.take(args@.len() as int) =~= av);
    command_from_parts(&parts)
}

/// The store of key-value pairs.
pub struct Store {
    data: StringHashMap<String>,
}

impl View for Store {
    type V = Map<Seq<char>, Seq<char>>;

    closed spec fn view(&self) -> Map<Seq<char>, Seq<char>> {
        self.data@.map_values(|v: String| v@)
    }
}

/// A bulk-string reply carrying `v`: `$`, the byte length, CRLF, the text,
/// CRLF.
pub open spec fn bulk_reply(v: Seq<char>) -> Seq<char> {
    "$"@ + decimal(encode_utf8(v).len()) + "\r\n"@ + v + "\r\n"@
}

/// The store after a request, and the reply text.
pub open spec fn apply(db: Map<Seq<char>, Seq<char>>, req: Request) -> (Map<Seq<char>, Seq<char>>, Seq<char>) {
    match req {
        Request::SetValue(k, v) => (db.insert(k, v), "+OK\r\n"@),
        Request::Get(k) => (db, if db.contains_key(k) { bulk_reply(db[k]) } else { "$-1\r\n"@ }),
        Request::Ping => (db, "+PONG\r\n"@),
        Request::Unknown => (db, "-ERR unknown command\r\n"@),
    }
}

impl Store {
    /// An empty store.
    pub fn new() -> (store: Self)
        ensures
            store@ == Map::<Seq<char>, Seq<char>>::empty(),
    {
        let store = Store { data: StringHashMap::new() };
        assert(store@ =~= Map::<Seq<char>, Seq<char>>::empty());
        store
    }

    /// Carry out a request and give the reply text.
    pub fn execute(&mut self, command: Command) -> (reply: String)
        ensures
            (final(self)@, reply@) == apply(old(self)@, command@),
    {
        match command {
            Command::SetValue(key, value) => {
                let ghost k = key@;
                let ghost v = value@;
                self.data.insert(key, value);
                assert(self@ =~= old(self)@.insert(k, v));
                "+OK\r\n".to_string()
            },
            Command::Get(key) => {
                match self.data.get(key.as_str()) {
                    Some(val) => {
                        let len = val.as_str().as_bytes().len();
                        let mut reply = "$".to_string();
                        reply.append(decimal_text(len).as_str());
                        reply.append("\r\n");
                        reply.append(val.as_str());
                        reply.append("\r\n");
                        proof {
                            reveal_strlit("$");
                            assert(self@.contains_key(key@));
                            assert(self@[key@] == val@);
                            vstd::utf8::encode_utf8_valid_utf8(val@);
                        }
                        reply
                    },
                    None => "$-1\r\n".to_string(),
                }
            },
            Command::Ping => "+PONG\r\n".to_string(),
            Command::Unknown => "-ERR unknown command\r\n".to_string(),
        }
    }

    /// Answer one chunk of client input: a chunk that starts with `*` is
    /// parsed as a request and carried out, and the reply bytes are handed
    /// back; any other chunk gets no reply.
    pub fn respond(&mut self, input: &[u8]) -> (reply: Option<Vec<u8>>)
        requires
            input@.len() > 0,
        ensures
            input@[0] != 42 ==> reply is None && final(self)@ == old(self)@,
            input@[0] == 42 ==> final(self)@ == apply(old(self)@, parse_request(input@)).0,
            input@[0] == 42 ==> (reply matches Some(bytes) && bytes@ == encode_utf8(
                apply(old(self)@, parse_request(input@)).1,
            )),
    {
        if input[0] != 42u8 {
            return None;
        }
        let command = parse_resp_array(input);
        let text = self.execute(command);
        Some(text.as_str().as_bytes_vec())
    }
}

/// A value that was set is what a later `GET` of the same key answers.
pub proof fn lemma_set_then_get(db: Map<Seq<char>, Seq<char>>, key: Seq<char>, value: Seq<char>)
    ensures
        apply(apply(db, Request::SetValue(key, value)).0, Request::Get(key)).1 == bulk_reply(value),
        apply(db, Request::SetValue(key, value)).1 == "+OK\r\n"@,
{
}

/// Setting a key leaves every other key as it was.
pub proof fn lemma_set_keeps_others(
    db: Map<Seq<char>, Seq<char>>,
    key: Seq<char>,
    value: Seq<char>,
    other: Seq<char>,
)
    requires
        other != key,
    ensures
        apply(apply(db, Request::SetValue(key, value)).0, Request::Get(other)).1 == apply(
            db,
            Request::Get(other),
        ).1,
{
}

/// Only `SET` changes the store; `GET`, `PING` and unknown requests leave it
/// as it was.
pub proof fn lemma_only_set_writes(db: Map<Seq<char>, Seq<char>>, req: Request)
    requires
        !(req is SetValue),
    ensures
        apply(db, req).0 == db,
{
}

/// The lines of a RESP array after its `*` line: each argument preceded by
/// its `$` line (`heads[k]` before `args[k]`).
pub open spec fn announced_lines(heads: Seq<Seq<char>>, args: Seq<Seq<char>>) -> Seq<Seq<char>> {
    Seq::new(2 * args.len(), |i: int| if i % 2 == 0 { heads[i / 2] } else { args[i / 2] })
}

proof fn lemma_args_from(ls: Seq<Seq<char>>, heads: Seq<Seq<char>>, args: Seq<Seq<char>>, k: int)
    requires
        heads.len() == args.len(),
        forall|i: int| 0 <= i < heads.len() ==> starts_with(#[trigger] heads[i], "$"@),
        ls.len() == 1 + 2 * args.len(),
        forall|i: int| 0 <= i < 2 * args.len() ==> #[trigger] ls[1 + i] == announced_lines(heads, args)[i],
        0 <= k <= args.len(),
    ensures
        resp_args(ls, 1 + 2 * k) == args.skip(k),
    decreases args.len() - k,
{
    if k < args.len() {
        lemma_args_from(ls, heads, args, k + 1);
        assert(ls[1 + 2 * k] == announced_lines(heads, args)[2 * k]);
        assert(ls[1 + (2 * k + 1)] == announced_lines(heads, args)[2 * k + 1]);
        assert(1 + (2 * k + 1) == 2 + 2 * k);
        assert((2 * k) / 2 == k && (2 * k) % 2 == 0 && (2 * k + 1) / 2 == k && (2 * k + 1) % 2 == 1);
        assert(starts_with(heads[k], "$"@));
        assert(seq![args[k]] + args.skip(k + 1) =~= args.skip(k));
    } else {
        assert(args.skip(k) =~= Seq::<Seq<char>>::empty());
    }
}

/// The arguments of a RESP array are exactly the lines announced by its `$`
/// lines, whatever they hold, the empty line included: when the text's
/// lines are a `*` line and then, per argument, a `$` line and the
/// argument, the arguments found are those arguments, in order.
pub proof fn lemma_arguments_are_announced_lines(
    text: Seq<char>,
    star: Seq<char>,
    heads: Seq<Seq<char>>,
    args: Seq<Seq<char>>,
)
    requires
        starts_with(star, "*"@),
        heads.len() == args.len(),
        forall|i: int| 0 <= i < heads.len() ==> starts_with(#[trigger] heads[i], "$"@),
        lines(text) == seq![star] + announced_lines(heads, args),
    ensures
        request_args(text) == Some(args),
{
    let ls = lines(text);
    assert forall|i: int| 0 <= i < 2 * args.len() implies #[trigger] ls[1 + i] == announced_lines(
        heads,
        args,
    )[i] by {
        assert(ls[1 + i] == (seq![star] + announced_lines(heads, args))[1 + i]);
    }
    assert(ls[0] == star);
    lemma_args_from(ls, heads, args, 0);
    assert(args.skip(0) =~= args);
}

} // verus!
