//! The line transport abstraction, the command classifier and the
//! protocol session layer.
//!
//! A [`Transport`] sends one line and waits, under a bounded timeout,
//! for one reply line; it owns no protocol semantics. [`Serial`] owns
//! the protocol: the startup handshake, the downlink poll and the
//! classification of polled lines into [`Event`]s.

use vstd::prelude::*;
use vstd::string::StringExecFns;
use vstd::string::StrSliceExecFns;

use crate::error::Error;
use crate::parser::{
    parse, has_prefix, strip_prefix, spec_parse, str_eq, str_starts_with, Value, ValueModel,
};

verus! {

/// One send on the wire and the reply it got: `None` stands for a
/// timeout.
pub ghost struct Exchange {
    pub sent: Seq<char>,
    pub reply: Option<Seq<char>>,
}

/// The log relation of a single exchange: the new transport log extends
/// the old one by one entry that sent `line`.
pub open spec fn logged(old_log: Seq<Exchange>, new_log: Seq<Exchange>, line: Seq<char>) -> bool {
    &&& new_log.len() == old_log.len() + 1
    &&& new_log.drop_last() == old_log
    &&& new_log.last().sent == line
}

/// The line transport: delivers one line to the peer and waits for one
/// reply line, under a bounded timeout. Its one failure is a timeout.
pub trait Transport {
    /// Everything ever exchanged through this transport, oldest first.
    spec fn log(&self) -> Seq<Exchange>;

    /// Sends `line` and blocks until a full reply line arrives or
    /// `timeout_ms` elapses. Whatever the peer answers is recorded as
    /// the reply of the new log entry; a timeout records no reply.
    fn exchange(&mut self, line: &str, timeout_ms: u32) -> (r: Result<String, Error>)
        ensures
            logged(old(self).log(), final(self).log(), line@),
            match r {
                Ok(reply) => final(self).log().last().reply == Some(reply@),
                Err(e) => final(self).log().last().reply is None && e == Error::Timeout,
            },
    ;

    /// Lets the peer settle for `ms` milliseconds; exchanges nothing.
    fn wait_ms(&mut self, ms: u32)
        ensures
            final(self).log() == old(self).log(),
    ;
}

/// What one received chunk of bytes contributes to the line being
/// accumulated: the characters up to an embedded null byte (defensive
/// framing against noise: the rest of the chunk is discarded) or up to
/// a terminator, and whether a carriage return or newline completed the
/// line.
pub open spec fn chunk_scan(bytes: Seq<u8>) -> (Seq<char>, bool)
    decreases bytes.len(),
{
    if bytes.len() == 0 {
        (Seq::<char>::empty(), false)
    } else if bytes[0] == 0 {
        (Seq::<char>::empty(), false)
    } else if bytes[0] == 13 || bytes[0] == 10 {
        (Seq::<char>::empty(), true)
    } else {
        let rest = chunk_scan(bytes.drop_first());
        (seq![bytes[0] as char] + rest.0, rest.1)
    }
}

/// Folds one received chunk into the line being accumulated: a null
/// byte discards the rest of the chunk, a carriage return or newline
/// completes the line. Returns whether the line is complete.
pub fn feed_chunk(line: &mut String, chunk: &[u8]) -> (done: bool)
    ensures
        final(line)@ == old(line)@ + chunk_scan(chunk@).0,
        done == chunk_scan(chunk@).1,
{
    let n = chunk.len();
    let mut i: usize = 0;
    proof {
        assert(chunk@.skip(0) =~= chunk@);
    }
    while i < n
        invariant
            i <= n,
            n == chunk@.len(),
            line@ + chunk_scan(chunk@.skip(i as int)).0 == old(line)@ + chunk_scan(chunk@).0,
            chunk_scan(chunk@.skip(i as int)).1 == chunk_scan(chunk@).1,
        decreases n - i,
    {
        let ghost tail = chunk@.skip(i as int);
        let b = chunk[i];
        proof {
            assert(tail[0] == b);
            assert(tail.drop_first() =~= chunk@.skip(i + 1));
        }
        if b == 0 {
            return false;
        } else if b == 13 || b == 10 {
            return true;
        } else {
            let ghost prev = line@;
            crate::parser::push_char(line, b as char);
            proof {
                assert(line@ + chunk_scan(chunk@.skip(i + 1)).0 =~= prev + chunk_scan(tail).0);
            }
            i += 1;
        }
    }
    proof {
        assert(chunk@.skip(n as int) =~= Seq::<u8>::empty());
        assert(final(line)@ =~= old(line)@ + chunk_scan(chunk@).0);
    }
    false
}

/// The log entry a recorded (line, reply) pair denotes.
pub open spec fn exchange_of(p: (String, Option<String>)) -> Exchange {
    Exchange {
        sent: p.0@,
        reply: match p.1 {
            Some(s) => Some(s@),
            None => None,
        },
    }
}

/// A transport that answers from a fixed script: reply `k` answers the
/// `k`-th exchange, a `None` entry (and any exchange past the script's
/// end) times out. It records everything sent through it.
#[derive(Debug)]
pub struct ScriptTransport {
    /// The replies still to give, in order.
    pub script: Vec<Option<String>>,
    /// How many exchanges have been answered.
    pub cursor: usize,
    /// Every (line, reply) pair exchanged so far.
    pub history: Vec<(String, Option<String>)>,
}

impl ScriptTransport {
    /// A fresh transport that will answer from `script`.
    pub fn new(script: Vec<Option<String>>) -> (t: ScriptTransport)
        ensures
            t.log() == Seq::<Exchange>::empty(),
            t.script == script,
            t.cursor == 0,
    {
        let t = ScriptTransport { script, cursor: 0, history: Vec::new() };
        proof {
            assert(t.log() =~= Seq::<Exchange>::empty());
        }
        t
    }
}

impl Transport for ScriptTransport {
    open spec fn log(&self) -> Seq<Exchange> {
        self.history@.map_values(|p: (String, Option<String>)| exchange_of(p))
    }

    fn exchange(&mut self, line: &str, timeout_ms: u32) -> (r: Result<String, Error>) {
        let reply: Option<String> = if self.cursor < self.script.len() {
            let entry = &self.script[self.cursor];
            self.cursor = self.cursor + 1;
            match entry {
                Some(s) => Some(s.clone()),
                None => None,
            }
        } else {
            None
        };
        let record: Option<String> = match &reply {
            Some(s) => Some(s.clone()),
            None => None,
        };
        let ghost prev = self.history@;
        self.history.push((String::from_str(line), record));
        proof {
            let oldlog = prev.map_values(|p: (String, Option<String>)| exchange_of(p));
            assert(self.log() =~= oldlog.push(exchange_of(self.history@.last())));
            assert(self.log().drop_last() =~= oldlog);
            assert(self.log().last() == exchange_of(self.history@.last()));
            assert(exchange_of(self.history@.last()).sent == line@);
        }
        match reply {
            Some(s) => Ok(s),
            None => Err(Error::Timeout),
        }
    }

    fn wait_ms(&mut self, ms: u32) {
    }
}

/// One property reference inside a request: the slot address and, for a
/// write, the value to store (`None` marks a malformed entry that is
/// not applied).
#[derive(Debug)]
pub struct Property {
    pub siid: u32,
    pub piid: u32,
    pub value: Option<Value>,
}

/// The model of a [`Property`].
pub ghost struct PropertyModel {
    pub siid: u32,
    pub piid: u32,
    pub value: Option<ValueModel>,
}

impl View for Property {
    type V = PropertyModel;

    open spec fn view(&self) -> PropertyModel {
        PropertyModel {
            siid: self.siid,
            piid: self.piid,
            value: match self.value {
                Some(v) => Some(v@),
                None => None,
            },
        }
    }
}

impl DeepView for Property {
    type V = PropertyModel;

    open spec fn deep_view(&self) -> PropertyModel {
        self.view()
    }
}

impl Clone for Property {
    /// Clones preserve the property reference exactly.
    fn clone(&self) -> (r: Self)
        ensures
            r@ == self@,
    {
        Property {
            siid: self.siid,
            piid: self.piid,
            value: match &self.value {
                Some(v) => Some(v.clone()),
                None => None,
            },
        }
    }
}

/// One classified downlink line.
#[derive(Debug)]
pub enum Event {
    SetProperties(Vec<Property>),
    GetProperties(Vec<Property>),
    Unknown,
}

/// The model of an [`Event`].
pub ghost enum EventModel {
    SetProperties(Seq<PropertyModel>),
    GetProperties(Seq<PropertyModel>),
    Unknown,
}

impl View for Event {
    type V = EventModel;

    open spec fn view(&self) -> EventModel {
        match self {
            Event::SetProperties(ps) => EventModel::SetProperties(ps.deep_view()),
            Event::GetProperties(ps) => EventModel::GetProperties(ps.deep_view()),
            Event::Unknown => EventModel::Unknown,
        }
    }
}

impl DeepView for Event {
    type V = EventModel;

    open spec fn deep_view(&self) -> EventModel {
        self.view()
    }
}

/// Groups a parsed value list into (siid, piid) pairs: both must be
/// integer literals; a trailing or ill-typed entry fails the whole
/// list.
pub open spec fn spec_pairs(vs: Seq<ValueModel>) -> Option<Seq<PropertyModel>>
    decreases vs.len(),
{
    if vs.len() == 0 {
        Some(Seq::<PropertyModel>::empty())
    } else if vs.len() < 2 {
        None
    } else {
        match (vs[0], vs[1]) {
            (ValueModel::Integer(s), ValueModel::Integer(p)) => match spec_pairs(vs.skip(2)) {
                None => None,
                Some(rest) => Some(
                    seq![PropertyModel { siid: s, piid: p, value: None }] + rest,
                ),
            },
            _ => None,
        }
    }
}

/// Groups a parsed value list into (siid, piid, value) triples: the
/// ids must be integer literals, the value may be any literal; a
/// truncated or ill-typed group fails the whole list.
pub open spec fn spec_triples(vs: Seq<ValueModel>) -> Option<Seq<PropertyModel>>
    decreases vs.len(),
{
    if vs.len() == 0 {
        Some(Seq::<PropertyModel>::empty())
    } else if vs.len() < 3 {
        None
    } else {
        match (vs[0], vs[1]) {
            (ValueModel::Integer(s), ValueModel::Integer(p)) => match spec_triples(vs.skip(3)) {
                None => None,
                Some(rest) => Some(
                    seq![PropertyModel { siid: s, piid: p, value: Some(vs[2]) }] + rest,
                ),
            },
            _ => None,
        }
    }
}

fn group_pairs(vals: &Vec<Value>) -> (r: Result<Vec<Property>, Error>)
    ensures
        match r {
            Ok(ps) => spec_pairs(vals.deep_view()) == Some(ps.deep_view()),
            Err(e) => spec_pairs(vals.deep_view()) is None && e == Error::Malformed,
        },
{
    let ghost full = vals.deep_view();
    let n = vals.len();
    let mut out: Vec<Property> = Vec::new();
    let mut i: usize = 0;
    proof {
        assert(full.skip(0) =~= full);
    }
    while i < n
        invariant
            i <= n,
            n == vals@.len(),
            full == vals.deep_view(),
            spec_pairs(full) == (match spec_pairs(full.skip(i as int)) {
                None => None::<Seq<PropertyModel>>,
                Some(rest) => Some(out.deep_view() + rest),
            }),
        decreases n - i,
    {
        let ghost tail = full.skip(i as int);
        proof {
            assert(tail[0] == vals@[i as int].deep_view());
        }
        let siid: u32 = match &vals[i] {
            Value::Integer(s) => *s,
            _ => {
                return Err(Error::Malformed);
            },
        };
        if i + 1 >= n {
            return Err(Error::Malformed);
        }
        proof {
            assert(tail[1] == vals@[i + 1].deep_view());
        }
        let piid: u32 = match &vals[i + 1] {
            Value::Integer(p) => *p,
            _ => {
                return Err(Error::Malformed);
            },
        };
        let ghost prev_out = out.deep_view();
        out.push(Property { siid, piid, value: None });
        proof {
            assert(out.deep_view() =~= prev_out.push(
                PropertyModel { siid, piid, value: None },
            ));
            assert(tail.skip(2) =~= full.skip(i + 2));
            let rest = spec_pairs(full.skip(i + 2)).unwrap();
            assert(prev_out + (seq![PropertyModel { siid, piid, value: None }] + rest)
                =~= out.deep_view() + rest);
        }
        i = i + 2;
    }
    proof {
        assert(full.skip(n as int) =~= Seq::<ValueModel>::empty());
        assert(out.deep_view() + Seq::<PropertyModel>::empty() =~= out.deep_view());
    }
    Ok(out)
}

fn group_triples(vals: &Vec<Value>) -> (r: Result<Vec<Property>, Error>)
    ensures
        match r {
            Ok(ps) => spec_triples(vals.deep_view()) == Some(ps.deep_view()),
            Err(e) => spec_triples(vals.deep_view()) is None && e == Error::Malformed,
        },
{
    let ghost full = vals.deep_view();
    let n = vals.len();
    let mut out: Vec<Property> = Vec::new();
    let mut i: usize = 0;
    proof {
        assert(full.skip(0) =~= full);
    }
    while i < n
        invariant
            i <= n,
            n == vals@.len(),
            full == vals.deep_view(),
            spec_triples(full) == (match spec_triples(full.skip(i as int)) {
                None => None::<Seq<PropertyModel>>,
                Some(rest) => Some(out.deep_view() + rest),
            }),
        decreases n - i,
    {
        let ghost tail = full.skip(i as int);
        proof {
            assert(tail[0] == vals@[i as int].deep_view());
        }
        let siid: u32 = match &vals[i] {
            Value::Integer(s) => *s,
            _ => {
                return Err(Error::Malformed);
            },
        };
        if i + 1 >= n {
            return Err(Error::Malformed);
        }
        proof {
            assert(tail[1] == vals@[i + 1].deep_view());
        }
        let piid: u32 = match &vals[i + 1] {
            Value::Integer(p) => *p,
            _ => {
                return Err(Error::Malformed);
            },
        };
        if i + 2 >= n {
            return Err(Error::Malformed);
        }
        proof {
            assert(tail[2] == vals@[i + 2].deep_view());
        }
        let value = vals[i + 2].clone();
        let ghost vm = value@;
        let ghost prev_out = out.deep_view();
        out.push(Property { siid, piid, value: Some(value) });
        proof {
            assert(out.deep_view() =~= prev_out.push(
                PropertyModel { siid, piid, value: Some(vm) },
            ));
            assert(tail.skip(3) =~= full.skip(i + 3));
            let rest = spec_triples(full.skip(i + 3)).unwrap();
            assert(prev_out + (seq![PropertyModel { siid, piid, value: Some(vm) }] + rest)
                =~= out.deep_view() + rest);
        }
        i = i + 3;
    }
    proof {
        assert(full.skip(n as int) =~= Seq::<ValueModel>::empty());
        assert(out.deep_view() + Seq::<PropertyModel>::empty() =~= out.deep_view());
    }
    Ok(out)
}

/// The slot references a well-formed `get_properties` command asks to
/// read, or `None` if its arguments are malformed.
pub open spec fn spec_get_props(cmd: Seq<char>) -> Option<Seq<PropertyModel>> {
    match spec_parse(strip_prefix(cmd, "get_properties "@)) {
        None => None,
        Some(vs) => spec_pairs(vs),
    }
}

/// The writes a well-formed `set_properties` command asks to apply, or
/// `None` if its arguments are malformed.
pub open spec fn spec_set_props(cmd: Seq<char>) -> Option<Seq<PropertyModel>> {
    match spec_parse(strip_prefix(cmd, "set_properties "@)) {
        None => None,
        Some(vs) => spec_triples(vs),
    }
}

/// Parses `get_properties <siid> <piid> ...`, with or without its
/// leading keyword.
pub fn parse_get_properties(input: &str) -> (r: Result<Vec<Property>, Error>)
    ensures
        match r {
            Ok(ps) => spec_get_props(input@) == Some(ps.deep_view()),
            Err(e) => spec_get_props(input@) is None && e == Error::Malformed,
        },
{
    proof {
        reveal_strlit("get_properties ");
    }
    let rest: &str = if str_starts_with(input, "get_properties ") {
        let n = input.unicode_len();
        let sub = input.substring_char(15, n);
        proof {
            assert(sub@ =~= strip_prefix(input@, "get_properties "@));
        }
        sub
    } else {
        input
    };
    match parse(rest) {
        None => Err(Error::Malformed),
        Some(vals) => group_pairs(&vals),
    }
}

/// Parses `set_properties <siid> <piid> <value> ...`, with or without
/// its leading keyword.
pub fn parse_set_properties(input: &str) -> (r: Result<Vec<Property>, Error>)
    ensures
        match r {
            Ok(ps) => spec_set_props(input@) == Some(ps.deep_view()),
            Err(e) => spec_set_props(input@) is None && e == Error::Malformed,
        },
{
    proof {
        reveal_strlit("set_properties ");
    }
    let rest: &str = if str_starts_with(input, "set_properties ") {
        let n = input.unicode_len();
        let sub = input.substring_char(15, n);
        proof {
            assert(sub@ =~= strip_prefix(input@, "set_properties "@));
        }
        sub
    } else {
        input
    };
    match parse(rest) {
        None => Err(Error::Malformed),
        Some(vals) => group_triples(&vals),
    }
}

/// What a polled downlink line calls for.
pub ghost enum DownModel {
    /// The "no pending command" sentinel, or an empty line (benign).
    Idle,
    /// A well-formed property write request.
    SetProperties(Seq<PropertyModel>),
    /// A well-formed property read request.
    GetProperties(Seq<PropertyModel>),
    /// A network-change notice, swallowed without an event.
    NetChange,
    /// A power-mode query, answered with `result 1`.
    PowerMode,
    /// An unrecognized command.
    Unknown,
    /// A recognized command with malformed arguments.
    Malformed,
    /// A reply that is no downlink line at all.
    Unexpected,
}

/// Classifies the reply to a `get_down` poll. The sentinel and an
/// empty line are benign and call for nothing.
pub open spec fn spec_classify(reply: Seq<char>) -> DownModel {
    if reply.len() == 0 || reply == "down none"@ {
        DownModel::Idle
    } else if has_prefix(reply, "down "@) {
        let cmd = reply.skip("down "@.len() as int);
        if has_prefix(cmd, "set_properties"@) {
            match spec_set_props(cmd) {
                Some(ps) => DownModel::SetProperties(ps),
                None => DownModel::Malformed,
            }
        } else if has_prefix(cmd, "get_properties"@) {
            match spec_get_props(cmd) {
                Some(ps) => DownModel::GetProperties(ps),
                None => DownModel::Malformed,
            }
        } else if has_prefix(cmd, "MIIO_net_change "@) {
            DownModel::NetChange
        } else if has_prefix(cmd, "miIO.get_powermode"@) {
            DownModel::PowerMode
        } else {
            DownModel::Unknown
        }
    } else {
        DownModel::Unexpected
    }
}

/// What the session layer must do with one polled downlink line.
#[derive(Debug)]
pub enum DownAction {
    Idle,
    SetProperties(Vec<Property>),
    GetProperties(Vec<Property>),
    NetChange,
    PowerMode,
    Unknown,
    Malformed,
    Unexpected,
}

/// Classifies one reply to a `get_down` poll into the action it calls
/// for.
pub fn classify_down(reply: &str) -> (r: DownAction)
    ensures
        match r {
            DownAction::Idle => spec_classify(reply@) == DownModel::Idle,
            DownAction::SetProperties(ps) => spec_classify(reply@) == DownModel::SetProperties(
                ps.deep_view(),
            ),
            DownAction::GetProperties(ps) => spec_classify(reply@) == DownModel::GetProperties(
                ps.deep_view(),
            ),
            DownAction::NetChange => spec_classify(reply@) == DownModel::NetChange,
            DownAction::PowerMode => spec_classify(reply@) == DownModel::PowerMode,
            DownAction::Unknown => spec_classify(reply@) == DownModel::Unknown,
            DownAction::Malformed => spec_classify(reply@) == DownModel::Malformed,
            DownAction::Unexpected => spec_classify(reply@) == DownModel::Unexpected,
        },
{
    if reply.is_empty() || str_eq(reply, "down none") {
        return DownAction::Idle;
    }
    if !str_starts_with(reply, "down ") {
        return DownAction::Unexpected;
    }
    let n = reply.unicode_len();
    proof {
        reveal_strlit("down ");
    }
    let cmd = reply.substring_char(5, n);
    proof {
        assert(cmd@ =~= reply@.skip("down "@.len() as int));
    }
    if str_starts_with(cmd, "set_properties") {
        match parse_set_properties(cmd) {
            Ok(ps) => DownAction::SetProperties(ps),
            Err(_) => DownAction::Malformed,
        }
    } else if str_starts_with(cmd, "get_properties") {
        match parse_get_properties(cmd) {
            Ok(ps) => DownAction::GetProperties(ps),
            Err(_) => DownAction::Malformed,
        }
    } else if str_starts_with(cmd, "MIIO_net_change ") {
        DownAction::NetChange
    } else if str_starts_with(cmd, "miIO.get_powermode") {
        DownAction::PowerMode
    } else {
        DownAction::Unknown
    }
}

/// Timeout for ordinary request/reply exchanges.
const SEND_TIMEOUT_MS: u32 = 500;

/// Timeout for the steady-state downlink poll.
const POLL_TIMEOUT_MS: u32 = 1000;

/// The wire text of a `model` announcement.
pub open spec fn model_line(m: Seq<char>) -> Seq<char> {
    "model "@ + m
}

/// The wire text of a `result` reply.
pub open spec fn result_line(body: Seq<char>) -> Seq<char> {
    "result "@ + body
}

/// The wire text of an `mcu_version` announcement.
pub open spec fn version_line(v: Seq<char>) -> Seq<char> {
    "mcu_version "@ + v
}

/// The wire text of a `ble_config set` announcement.
pub open spec fn ble_config_line(pid: Seq<char>, v: Seq<char>) -> Seq<char> {
    "ble_config set "@ + pid + " "@ + v
}

/// How the result of one poll, and what it appended to the transport
/// log after the poll entry at `base`, follow from the classification
/// of the polled line.
pub open spec fn down_outcome(
    m: DownModel,
    base: int,
    ln: Seq<Exchange>,
    r: Result<Option<Event>, Error>,
) -> bool {
    match m {
        DownModel::Idle => ln.len() == base + 1 && r == Ok::<Option<Event>, Error>(None),
        DownModel::NetChange => ln.len() == base + 1 && r == Ok::<Option<Event>, Error>(None),
        DownModel::SetProperties(ps) => ln.len() == base + 1 && (r matches Ok(ev) && ev matches Some(e2) && e2@ == EventModel::SetProperties(ps)),
        DownModel::GetProperties(ps) => ln.len() == base + 1 && (r matches Ok(ev) && ev matches Some(e2) && e2@ == EventModel::GetProperties(ps)),
        DownModel::Unknown => ln.len() == base + 1 && (r matches Ok(ev) && ev matches Some(e2) && e2@ == EventModel::Unknown),
        DownModel::Malformed => ln.len() == base + 1 && r == Err::<Option<Event>, Error>(Error::Malformed),
        DownModel::Unexpected => ln.len() == base + 1 && r == Err::<Option<Event>, Error>(Error::UnexpectedReply),
        DownModel::PowerMode => {
            &&& ln.len() == base + 2
            &&& ln[base + 1].sent == "result 1"@
            &&& (ln[base + 1].reply is Some ==> r == Ok::<Option<Event>, Error>(None))
            &&& (ln[base + 1].reply is None ==> r == Err::<Option<Event>, Error>(Error::Timeout))
        },
    }
}

/// The protocol session layer: owns a transport and the session
/// identity announced over it.
pub struct Serial<T: Transport> {
    pub transport: T,
    pub model: Option<&'static str>,
    pub version: Option<&'static str>,
    pub pid: Option<&'static str>,
}

impl<T: Transport> Serial<T> {
    /// A session over `transport` that has announced nothing yet.
    pub fn new(transport: T) -> (s: Serial<T>)
        ensures
            s.transport == transport,
            s.model is None,
            s.version is None,
            s.pid is None,
    {
        Serial { transport, model: None, version: None, pid: None }
    }

    /// Sends one line and hands back whatever single line the peer
    /// replied, or the timeout.
    pub fn send(&mut self, message: &str) -> (r: Result<String, Error>)
        ensures
            logged(old(self).transport.log(), final(self).transport.log(), message@),
            final(self).model == old(self).model,
            final(self).version == old(self).version,
            final(self).pid == old(self).pid,
            match r {
                Ok(reply) => final(self).transport.log().last().reply == Some(reply@),
                Err(e) => final(self).transport.log().last().reply is None && e == Error::Timeout,
            },
    {
        self.transport.exchange(message, SEND_TIMEOUT_MS)
    }

    /// Announces the device model; the peer must acknowledge with
    /// `ok`.
    pub fn model(&mut self, model: &'static str) -> (r: Result<(), Error>)
        ensures
            final(self).model == Some(model),
            final(self).version == old(self).version,
            final(self).pid == old(self).pid,
            logged(old(self).transport.log(), final(self).transport.log(), model_line(model@)),
            ({
                let rep = final(self).transport.log().last().reply;
                match r {
                    Ok(()) => rep == Some("ok"@),
                    Err(Error::Timeout) => rep is None,
                    Err(Error::UnexpectedReply) => rep is Some && rep != Some("ok"@),
                    Err(_) => false,
                }
            }),
    {
        self.model = Some(model);
        let mut cmd = String::from_str("model ");
        cmd.append(model);
        match self.send(cmd.as_str()) {
            Err(e) => Err(e),
            Ok(response) => {
                if str_eq(response.as_str(), "ok") {
                    Ok(())
                } else {
                    Err(Error::UnexpectedReply)
                }
            },
        }
    }

    /// Sends a `result` reply line; the peer must acknowledge with
    /// `ok`.
    pub fn result(&mut self, result: String) -> (r: Result<(), Error>)
        ensures
            final(self).model == old(self).model,
            final(self).version == old(self).version,
            final(self).pid == old(self).pid,
            logged(old(self).transport.log(), final(self).transport.log(), result_line(result@)),
            ({
                let rep = final(self).transport.log().last().reply;
                match r {
                    Ok(()) => rep == Some("ok"@),
                    Err(Error::Timeout) => rep is None,
                    Err(Error::UnexpectedReply) => rep is Some && rep != Some("ok"@),
                    Err(_) => false,
                }
            }),
    {
        let mut cmd = String::from_str("result ");
        cmd.append(result.as_str());
        match self.send(cmd.as_str()) {
            Err(e) => Err(e),
            Ok(response) => {
                if str_eq(response.as_str(), "ok") {
                    Ok(())
                } else {
                    Err(Error::UnexpectedReply)
                }
            },
        }
    }

    /// Announces the firmware version and product id. The version
    /// announcement must be acknowledged; the diagnostic dump reply is
    /// ignored; the `ble_config set` must be acknowledged.
    pub fn version(&mut self, version: &'static str, pid: &'static str) -> (r: Result<(), Error>)
        ensures
            final(self).version == Some(version),
            final(self).pid == Some(pid),
            final(self).model == old(self).model,
            ({
                let lo = old(self).transport.log();
                let ln = final(self).transport.log();
                &&& lo.len() + 1 <= ln.len() <= lo.len() + 3
                &&& ln.subrange(0, lo.len() as int) == lo
                &&& ln[lo.len() as int].sent == version_line(version@)
                &&& (ln.len() >= lo.len() + 2 ==> ln[lo.len() as int].reply == Some("ok"@)
                    && ln[lo.len() as int + 1].sent == "ble_config dump"@)
                &&& (ln.len() == lo.len() + 3 ==> ln[lo.len() as int + 1].reply is Some && ln[lo.len() as int
                    + 2].sent == ble_config_line(pid@, version@))
                &&& (ln[lo.len() as int].reply == Some("ok"@) ==> ln.len() >= lo.len() + 2)
                &&& (ln.len() >= lo.len() + 2 && ln[lo.len() as int + 1].reply is Some ==> ln.len()
                    == lo.len() + 3)
                &&& (r is Ok <==> ln.len() == lo.len() + 3 && ln[lo.len() as int + 2].reply == Some(
                    "ok"@,
                ))
                &&& (r == Err::<(), Error>(Error::Timeout) ==> ln.last().reply is None)
                &&& (r == Err::<(), Error>(Error::UnexpectedReply) ==> ln.last().reply is Some
                    && ln.last().reply != Some("ok"@) && (ln.len() == lo.len() + 1 || ln.len()
                    == lo.len() + 3))
                &&& (r matches Err(e) ==> e == Error::Timeout || e == Error::UnexpectedReply)
            }),
    {
        self.version = Some(version);
        self.pid = Some(pid);
        let ghost lo = self.transport.log();
        let mut cmd = String::from_str("mcu_version ");
        cmd.append(version);
        let response = match self.send(cmd.as_str()) {
            Err(e) => {
                return Err(e);
            },
            Ok(resp) => resp,
        };
        proof {
            assert(self.transport.log().subrange(0, lo.len() as int) =~= lo);
        }
        if !str_eq(response.as_str(), "ok") {
            return Err(Error::UnexpectedReply);
        }
        let ghost l1 = self.transport.log();
        match self.send("ble_config dump") {
            Err(e) => {
                proof {
                    assert(self.transport.log().subrange(0, lo.len() as int) =~= lo);
                }
                return Err(e);
            },
            Ok(_) => {},
        };
        proof {
            assert(self.transport.log().subrange(0, lo.len() as int) =~= lo);
        }
        let ghost l2 = self.transport.log();
        let mut cmd2 = String::from_str("ble_config set ");
        cmd2.append(pid);
        cmd2.append(" ");
        cmd2.append(version);
        let response2 = match self.send(cmd2.as_str()) {
            Err(e) => {
                proof {
                    assert(self.transport.log().subrange(0, lo.len() as int) =~= lo);
                }
                return Err(e);
            },
            Ok(resp) => resp,
        };
        proof {
            assert(self.transport.log().subrange(0, lo.len() as int) =~= lo);
        }
        if str_eq(response2.as_str(), "ok") {
            Ok(())
        } else {
            Err(Error::UnexpectedReply)
        }
    }

    /// Performs the optional factory-restore path: `restore` then
    /// `reboot`, each acknowledged with `ok`, then lets the peer
    /// reinitialize.
    pub fn restore(&mut self) -> (r: Result<(), Error>)
        ensures
            final(self).model == old(self).model,
            final(self).version == old(self).version,
            final(self).pid == old(self).pid,
            ({
                let lo = old(self).transport.log();
                let ln = final(self).transport.log();
                &&& lo.len() + 1 <= ln.len() <= lo.len() + 2
                &&& ln.subrange(0, lo.len() as int) == lo
                &&& ln[lo.len() as int].sent == "restore"@
                &&& (ln.len() == lo.len() + 2 ==> ln[lo.len() as int].reply == Some("ok"@)
                    && ln[lo.len() as int + 1].sent == "reboot"@)
                &&& (ln[lo.len() as int].reply == Some("ok"@) ==> ln.len() == lo.len() + 2)
                &&& (r is Ok <==> ln.len() == lo.len() + 2 && ln[lo.len() as int + 1].reply == Some(
                    "ok"@,
                ))
                &&& (r == Err::<(), Error>(Error::Timeout) ==> ln.last().reply is None)
                &&& (r == Err::<(), Error>(Error::UnexpectedReply) ==> ln.last().reply is Some
                    && ln.last().reply != Some("ok"@))
                &&& (r matches Err(e) ==> e == Error::Timeout || e == Error::UnexpectedReply)
            }),
    {
        let ghost lo = self.transport.log();
        let response = match self.send("restore") {
            Err(e) => {
                return Err(e);
            },
            Ok(resp) => resp,
        };
        if !str_eq(response.as_str(), "ok") {
            return Err(Error::UnexpectedReply);
        }
        let response2 = match self.send("reboot") {
            Err(e) => {
                proof {
                    assert(self.transport.log().subrange(0, lo.len() as int) =~= lo);
                }
                return Err(e);
            },
            Ok(resp) => resp,
        };
        proof {
            assert(self.transport.log().subrange(0, lo.len() as int) =~= lo);
        }
        if str_eq(response2.as_str(), "ok") {
            self.transport.wait_ms(1000);
            Ok(())
        } else {
            Err(Error::UnexpectedReply)
        }
    }

    /// Polls the peer for one pending downlink command and classifies
    /// it. The sentinel and the side-channel commands produce no
    /// event; a power-mode query is answered on the spot.
    pub fn get_down(&mut self) -> (r: Result<Option<Event>, Error>)
        ensures
            final(self).model == old(self).model,
            final(self).version == old(self).version,
            final(self).pid == old(self).pid,
            ({
                let lo = old(self).transport.log();
                let ln = final(self).transport.log();
                &&& lo.len() + 1 <= ln.len() <= lo.len() + 2
                &&& ln.subrange(0, lo.len() as int) == lo
                &&& ln[lo.len() as int].sent == "get_down"@
                &&& (ln[lo.len() as int].reply is None ==> ln.len() == lo.len() + 1 && r == Err::<
                    Option<Event>,
                    Error,
                >(Error::Timeout))
                &&& (ln[lo.len() as int].reply matches Some(text) ==> down_outcome(
                    spec_classify(text),
                    lo.len() as int,
                    ln,
                    r,
                ))
            }),
    {
        let ghost lo = self.transport.log();
        let response = match self.transport.exchange("get_down", POLL_TIMEOUT_MS) {
            Err(e) => {
                return Err(e);
            },
            Ok(resp) => resp,
        };
        match classify_down(response.as_str()) {
            DownAction::Idle => Ok(None),
            DownAction::NetChange => Ok(None),
            DownAction::SetProperties(ps) => Ok(Some(Event::SetProperties(ps))),
            DownAction::GetProperties(ps) => Ok(Some(Event::GetProperties(ps))),
            DownAction::Unknown => Ok(Some(Event::Unknown)),
            DownAction::Malformed => Err(Error::Malformed),
            DownAction::Unexpected => Err(Error::UnexpectedReply),
            DownAction::PowerMode => {
                let res = match self.send("result 1") {
                    Err(e) => Err(e),
                    Ok(_) => Ok(None),
                };
                proof {
                    assert(self.transport.log().subrange(0, lo.len() as int) =~= lo);
                }
                res
            },
        }
    }
}

} // verus!
