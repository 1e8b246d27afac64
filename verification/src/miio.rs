//! The property registry and the steady-state protocol engine.
//!
//! An [`IoTFramework`] owns every registered property slot, detects
//! changes, persists mutations through a [`Persist`] collaborator,
//! drives a change [`OnChange`] handler, and exchanges request and
//! notification lines through a [`crate::serial::Serial`] session.

use std::collections::HashMap;
use vstd::prelude::*;
use vstd::string::StringExecFns;

use crate::error::Error;
use crate::parser::{
    push_char, spec_dec, spec_render, str_eq, u32_to_string, Value, ValueModel,
};
use crate::serial::{
    logged, spec_classify, DownModel, Event, Property, PropertyModel, Serial, Transport,
};

verus! {

broadcast use vstd::std_specs::hash::group_hash_axioms;

/// One registered property slot: its address and its current value.
#[derive(Debug)]
pub struct Storage {
    pub siid: u32,
    pub piid: u32,
    pub value: Value,
}

/// The single map key a (siid, piid) pair addresses.
pub open spec fn key(siid: u32, piid: u32) -> u64 {
    ((siid as u64) * 0x1_0000_0000 + (piid as u64)) as u64
}

/// Distinct (siid, piid) pairs address distinct slots.
pub proof fn lemma_key_injective(s1: u32, p1: u32, s2: u32, p2: u32)
    ensures
        key(s1, p1) == key(s2, p2) ==> s1 == s2 && p1 == p2,
{
}

fn make_key64(siid: u32, piid: u32) -> (k: u64)
    ensures
        k == key(siid, piid),
{
    (siid as u64) * 0x1_0000_0000u64 + (piid as u64)
}

/// The persistence key a slot is stored under: `<siid>.<piid>`.
pub open spec fn key_str(siid: u32, piid: u32) -> Seq<char> {
    spec_dec(siid as nat) + seq!['.'] + spec_dec(piid as nat)
}

fn make_key(siid: u32, piid: u32) -> (s: String)
    ensures
        s@ == key_str(siid, piid),
{
    let mut s = u32_to_string(siid);
    push_char(&mut s, '.');
    let p = u32_to_string(piid);
    s.append(p.as_str());
    proof {
        assert(s@ =~= key_str(siid, piid));
    }
    s
}

/// The durable key-value collaborator: an opaque durable map from
/// string keys to values.
pub trait Persist {
    /// What the durable map holds.
    spec fn stored(&self) -> Map<Seq<char>, ValueModel>;

    /// Writes one key; on success the durable map holds exactly the
    /// new binding on top of what it held.
    fn save(&mut self, k: &str, value: &Value) -> (r: Result<(), Error>)
        ensures
            r is Ok ==> final(self).stored() == old(self).stored().insert(k@, value@),
            r matches Err(e) ==> e == Error::Persist,
    ;

    /// Reads one key back; success reports exactly whether the durable
    /// map holds the key, and if so its value.
    fn load(&self, k: &str) -> (r: Result<Option<Value>, Error>)
        ensures
            match r {
                Ok(Some(v)) => self.stored().contains_key(k@) && self.stored()[k@] == v@,
                Ok(None) => !self.stored().contains_key(k@),
                Err(e) => e == Error::Persist,
            },
    ;
}

/// The durable map an association list denotes; a later entry for a
/// key shadows an earlier one.
pub open spec fn assoc_map(s: Seq<(String, Value)>) -> Map<Seq<char>, ValueModel>
    decreases s.len(),
{
    if s.len() == 0 {
        Map::<Seq<char>, ValueModel>::empty()
    } else {
        assoc_map(s.drop_last()).insert(s.last().0@, s.last().1@)
    }
}

/// An in-memory [`Persist`] implementation: an append-only association
/// list. It never fails.
pub struct MemStorage {
    pub entries: Vec<(String, Value)>,
}

impl MemStorage {
    /// An empty store.
    pub fn new() -> (s: MemStorage)
        ensures
            s.stored() == Map::<Seq<char>, ValueModel>::empty(),
    {
        let s = MemStorage { entries: Vec::new() };
        proof {
            assert(s.stored() =~= Map::<Seq<char>, ValueModel>::empty());
        }
        s
    }
}

fn lookup_from(entries: &Vec<(String, Value)>, n: usize, k: &str) -> (r: Option<Value>)
    requires
        n <= entries@.len(),
    ensures
        match r {
            Some(v) => assoc_map(entries@.take(n as int)).contains_key(k@) && assoc_map(
                entries@.take(n as int),
            )[k@] == v@,
            None => !assoc_map(entries@.take(n as int)).contains_key(k@),
        },
    decreases n,
{
    if n == 0 {
        proof {
            assert(entries@.take(0) =~= Seq::<(String, Value)>::empty());
        }
        None
    } else {
        proof {
            assert(entries@.take(n as int).drop_last() =~= entries@.take(n - 1));
            assert(entries@.take(n as int).last() == entries@[n - 1]);
        }
        let e = &entries[n - 1];
        if str_eq(e.0.as_str(), k) {
            Some(e.1.clone())
        } else {
            lookup_from(entries, n - 1, k)
        }
    }
}

impl Persist for MemStorage {
    open spec fn stored(&self) -> Map<Seq<char>, ValueModel> {
        assoc_map(self.entries@)
    }

    fn save(&mut self, k: &str, value: &Value) -> (r: Result<(), Error>) {
        let ghost prev = self.entries@;
        self.entries.push((String::from_str(k), value.clone()));
        proof {
            assert(self.entries@.drop_last() =~= prev);
        }
        Ok(())
    }

    fn load(&self, k: &str) -> (r: Result<Option<Value>, Error>) {
        let n = self.entries.len();
        proof {
            assert(self.entries@.take(n as int) =~= self.entries@);
        }
        Ok(lookup_from(&self.entries, n, k))
    }
}

/// A [`Persist`] implementation that refuses every read and write:
/// exercises the engine's handling of a failing durable store.
pub struct FailStorage {
}

impl FailStorage {
    /// A store that will fail everything.
    pub fn new() -> (s: FailStorage) {
        FailStorage {  }
    }
}

impl Persist for FailStorage {
    open spec fn stored(&self) -> Map<Seq<char>, ValueModel> {
        Map::<Seq<char>, ValueModel>::empty()
    }

    fn save(&mut self, k: &str, value: &Value) -> (r: Result<(), Error>) {
        Err(Error::Persist)
    }

    fn load(&self, k: &str) -> (r: Result<Option<Value>, Error>) {
        Err(Error::Persist)
    }
}

/// The change callback collaborator: told, synchronously, about every
/// applied property change.
pub trait OnChange {
    /// Every change this handler has been told about, oldest first.
    spec fn calls(&self) -> Seq<(u32, u32, ValueModel)>;

    /// Reacts to the new value of one property slot.
    fn on_change(&mut self, siid: u32, piid: u32, value: &Value)
        ensures
            final(self).calls() == old(self).calls().push((siid, piid, value@)),
    ;
}

/// An [`OnChange`] handler that only records what it is told.
pub struct CallLog {
    pub entries: Vec<(u32, u32, Value)>,
}

impl CallLog {
    /// A log that has seen nothing.
    pub fn new() -> (l: CallLog)
        ensures
            l.calls() == Seq::<(u32, u32, ValueModel)>::empty(),
    {
        let l = CallLog { entries: Vec::new() };
        proof {
            assert(l.calls() =~= Seq::<(u32, u32, ValueModel)>::empty());
        }
        l
    }
}

impl OnChange for CallLog {
    open spec fn calls(&self) -> Seq<(u32, u32, ValueModel)> {
        self.entries@.map_values(|t: (u32, u32, Value)| (t.0, t.1, t.2@))
    }

    fn on_change(&mut self, siid: u32, piid: u32, value: &Value) {
        let ghost prev = self.entries@;
        self.entries.push((siid, piid, value.clone()));
        proof {
            let f = |t: (u32, u32, Value)| (t.0, t.1, t.2@);
            assert(self.calls() =~= prev.map_values(f).push((siid, piid, value@)));
        }
    }
}

fn pairs_contains(v: &Vec<(u32, u32)>, siid: u32, piid: u32) -> (b: bool)
    ensures
        b == v@.contains((siid, piid)),
{
    let n = v.len();
    let mut i: usize = 0;
    while i < n
        invariant
            i <= n,
            n == v@.len(),
            forall|j: int| 0 <= j < i ==> v@[j] != (siid, piid),
        decreases n - i,
    {
        let e = v[i];
        if e.0 == siid && e.1 == piid {
            proof {
                assert(v@[i as int] == (siid, piid));
            }
            return true;
        }
        i += 1;
    }
    proof {
        assert(forall|j: int| 0 <= j < v@.len() ==> v@[j] != (siid, piid));
    }
    false
}

/// The uplink notification announcing one applied property change.
pub open spec fn notify_line(siid: u32, piid: u32, v: ValueModel) -> Seq<char> {
    "properties_changed "@ + spec_dec(siid as nat) + " "@ + spec_dec(piid as nat) + " "@
        + spec_render(v)
}

/// The property protocol engine: the registry of record and the
/// session that serves it.
pub struct IoTFramework<T: Transport, P: Persist, H: OnChange> {
    /// Every registered slot, keyed by [`key`].
    pub properties: HashMap<u64, Storage>,
    /// The (siid, piid) pairs whose changes are reported to the
    /// handler.
    pub hooked: Vec<(u32, u32)>,
    /// The protocol session.
    pub serial: Serial<T>,
    /// The durable store for applied writes.
    pub persist: P,
    /// The change callback collaborator.
    pub handler: H,
    /// The announced device model.
    pub model: &'static str,
    /// The announced firmware version.
    pub version: &'static str,
    /// The announced product id.
    pub pid: &'static str,
    /// The service id of the most recently registered slot.
    pub siid: u32,
    /// The property id of the most recently registered slot.
    pub piid: u32,
}

impl<T: Transport, P: Persist, H: OnChange> IoTFramework<T, P, H> {
    /// The registry of record: every registered slot's current value.
    pub open spec fn props(&self) -> Map<u64, ValueModel> {
        Map::new(
            |k: u64| self.properties@.contains_key(k),
            |k: u64| self.properties@[k].value@,
        )
    }

    /// Whether changes of the slot are reported to the handler.
    pub open spec fn is_hooked(&self, siid: u32, piid: u32) -> bool {
        self.hooked@.contains((siid, piid))
    }

    /// Connects the engine: announces the model (mandatory) and then
    /// the firmware version and product id (best effort). Succeeds if
    /// and only if the model announcement is acknowledged; on failure
    /// the transport comes back inside the error.
    pub fn new(
        transport: T,
        persist: P,
        handler: H,
        model: &'static str,
        version: &'static str,
        pid: &'static str,
    ) -> (r: Result<Self, (Error, T)>)
        ensures
            match r {
                Ok(fw) => {
                    &&& fw.props() == Map::<u64, ValueModel>::empty()
                    &&& fw.hooked@ == Seq::<(u32, u32)>::empty()
                    &&& fw.persist == persist
                    &&& fw.handler == handler
                    &&& fw.model == model
                    &&& fw.version == version
                    &&& fw.pid == pid
                    &&& fw.siid == 0
                    &&& fw.piid == 0
                    &&& fw.serial.transport.log().len() >= transport.log().len() + 2
                    &&& fw.serial.transport.log().subrange(0, transport.log().len() as int)
                        == transport.log()
                    &&& fw.serial.transport.log()[transport.log().len() as int].sent
                        == crate::serial::model_line(model@)
                    &&& fw.serial.transport.log()[transport.log().len() as int].reply == Some(
                        "ok"@,
                    )
                },
                Err(pair) => {
                    let t = pair.1;
                    &&& (pair.0 == Error::Timeout || pair.0 == Error::UnexpectedReply)
                    &&& t.log().len() == transport.log().len() + 1
                    &&& t.log().subrange(0, transport.log().len() as int) == transport.log()
                    &&& t.log().last().sent == crate::serial::model_line(model@)
                    &&& (pair.0 == Error::Timeout ==> t.log().last().reply is None)
                    &&& (pair.0 == Error::UnexpectedReply ==> t.log().last().reply is Some
                        && t.log().last().reply != Some("ok"@))
                },
            },
    {
        let ghost l0 = transport.log();
        let mut serial = Serial::new(transport);
        match serial.model(model) {
            Err(e) => {
                proof {
                    assert(serial.transport.log().subrange(0, l0.len() as int) =~= l0);
                }
                return Err((e, serial.transport));
            },
            Ok(()) => {},
        }
        proof {
            assert(serial.transport.log().subrange(0, l0.len() as int) =~= l0);
        }
        let ghost l1 = serial.transport.log();
        let _ = serial.version(version, pid);
        proof {
            assert(serial.transport.log().subrange(0, l0.len() as int) =~= l0);
            assert(serial.transport.log()[l0.len() as int] == l1.last());
        }
        let fw = IoTFramework {
            properties: HashMap::new(),
            hooked: Vec::new(),
            serial,
            persist,
            handler,
            model,
            version,
            pid,
            siid: 0,
            piid: 0,
        };
        proof {
            assert(fw.props() =~= Map::<u64, ValueModel>::empty());
        }
        Ok(fw)
    }

    /// Registers (or re-registers) a slot with an initial value,
    /// unconditionally overwriting any stored value, and leaves the
    /// registration cursor on it.
    pub fn register(&mut self, siid: u32, piid: u32, value: Value) -> (r: &mut Self)
        ensures
            *final(self) == *final(r),
            r.props() == old(self).props().insert(key(siid, piid), value@),
            r.hooked == old(self).hooked,
            r.serial == old(self).serial,
            r.persist == old(self).persist,
            r.handler == old(self).handler,
            r.model == old(self).model,
            r.version == old(self).version,
            r.pid == old(self).pid,
            r.siid == siid,
            r.piid == piid,
    {
        let ghost vm = value@;
        let k = make_key64(siid, piid);
        self.siid = siid;
        self.piid = piid;
        self.properties.insert(k, Storage { siid, piid, value });
        proof {
            assert(self.props() =~= old(self).props().insert(key(siid, piid), vm));
        }
        self
    }

    /// Registers a batch of slots, in order.
    pub fn registers(&mut self, values: Vec<(u32, u32, Value)>) -> (r: &mut Self)
        ensures
            *final(self) == *final(r),
            r.hooked == old(self).hooked,
            r.serial == old(self).serial,
            r.persist == old(self).persist,
            r.handler == old(self).handler,
            r.model == old(self).model,
            r.version == old(self).version,
            r.pid == old(self).pid,
            r.props() == registered_after(old(self).props(), values@),
            values@.len() > 0 ==> r.siid == values@.last().0 && r.piid == values@.last().1,
            values@.len() == 0 ==> r.siid == old(self).siid && r.piid == old(self).piid,
    {
        let n = values.len();
        let mut i: usize = 0;
        while i < n
            invariant
                i <= n,
                n == values@.len(),
                self.props() == registered_after(old(self).props(), values@.take(i as int)),
                self.hooked == old(self).hooked,
                self.serial == old(self).serial,
                self.persist == old(self).persist,
                self.handler == old(self).handler,
                self.model == old(self).model,
                self.version == old(self).version,
                self.pid == old(self).pid,
                i > 0 ==> self.siid == values@[i - 1].0 && self.piid == values@[i - 1].1,
                i == 0 ==> self.siid == old(self).siid && self.piid == old(self).piid,
            decreases n - i,
        {
            proof {
                assert(values@.take(i + 1).drop_last() =~= values@.take(i as int));
                assert(values@.take(i + 1).last() == values@[i as int]);
            }
            let siid = values[i].0;
            let piid = values[i].1;
            let value = values[i].2.clone();
            let _ = self.register(siid, piid, value);
            i += 1;
        }
        proof {
            assert(values@.take(n as int) =~= values@);
        }
        self
    }

    /// Attaches the change handler to one slot: its applied changes
    /// will be reported.
    pub fn callback(&mut self, siid: u32, piid: u32) -> (r: &mut Self)
        ensures
            *final(self) == *final(r),
            r.hooked@ == (if old(self).is_hooked(siid, piid) {
                old(self).hooked@
            } else {
                old(self).hooked@.push((siid, piid))
            }),
            r.properties == old(self).properties,
            r.serial == old(self).serial,
            r.persist == old(self).persist,
            r.handler == old(self).handler,
            r.model == old(self).model,
            r.version == old(self).version,
            r.pid == old(self).pid,
            r.siid == old(self).siid,
            r.piid == old(self).piid,
    {
        if !pairs_contains(&self.hooked, siid, piid) {
            self.hooked.push((siid, piid));
        }
        self
    }

    /// Attaches the change handler to the most recently registered
    /// slot.
    pub fn on(&mut self) -> (r: &mut Self)
        ensures
            *final(self) == *final(r),
            r.hooked@ == (if old(self).is_hooked(old(self).siid, old(self).piid) {
                old(self).hooked@
            } else {
                old(self).hooked@.push((old(self).siid, old(self).piid))
            }),
            r.properties == old(self).properties,
            r.serial == old(self).serial,
            r.persist == old(self).persist,
            r.handler == old(self).handler,
            r.model == old(self).model,
            r.version == old(self).version,
            r.pid == old(self).pid,
            r.siid == old(self).siid,
            r.piid == old(self).piid,
    {
        let siid = self.siid;
        let piid = self.piid;
        self.callback(siid, piid)
    }

    /// Reads a slot's current value out of the registry, without
    /// touching the wire.
    pub fn get_from_cache(&self, siid: u32, piid: u32) -> (r: Option<Value>)
        ensures
            match r {
                Some(v) => self.props().contains_key(key(siid, piid)) && self.props()[key(
                    siid,
                    piid,
                )] == v@,
                None => !self.props().contains_key(key(siid, piid)),
            },
    {
        let k = make_key64(siid, piid);
        match self.properties.get(&k) {
            Some(st) => Some(st.value.clone()),
            None => None,
        }
    }
}

impl<T: Transport, P: Persist, H: OnChange> IoTFramework<T, P, H> {
    /// Applies one property write from the device side. A write to an
    /// unregistered slot, or of a value equal to the stored one, is a
    /// no-op with no side effect at all. A change is stored, persisted,
    /// reported to the handler if the slot is hooked, and announced
    /// upstream in one `properties_changed` line; a persistence failure
    /// stops the write before the callback and the announcement.
    pub fn set_property(&mut self, siid: u32, piid: u32, value: Value) -> (r: Result<(), Error>)
        ensures
            final(self).hooked == old(self).hooked,
            final(self).model == old(self).model,
            final(self).version == old(self).version,
            final(self).pid == old(self).pid,
            final(self).siid == old(self).siid,
            final(self).piid == old(self).piid,
            ({
                let k = key(siid, piid);
                let lo = old(self).serial.transport.log();
                let ln = final(self).serial.transport.log();
                &&& (!old(self).props().contains_key(k) ==> r is Ok && *final(self) == *old(self))
                &&& (old(self).props().contains_key(k) && old(self).props()[k] == value@ ==> r is Ok
                    && *final(self) == *old(self))
                &&& (old(self).props().contains_key(k) && old(self).props()[k] != value@ ==> {
                    &&& final(self).props() == old(self).props().insert(k, value@)
                    &&& (r is Ok ==> {
                        &&& final(self).persist.stored() == old(self).persist.stored().insert(
                            key_str(siid, piid),
                            value@,
                        )
                        &&& final(self).handler.calls() == (if old(self).is_hooked(siid, piid) {
                            old(self).handler.calls().push((siid, piid, value@))
                        } else {
                            old(self).handler.calls()
                        })
                        &&& logged(lo, ln, notify_line(siid, piid, value@))
                        &&& ln.last().reply is Some
                    })
                    &&& (r == Err::<(), Error>(Error::Persist) ==> final(self).handler.calls()
                        == old(self).handler.calls() && ln == lo)
                    &&& (r == Err::<(), Error>(Error::Timeout) ==> {
                        &&& final(self).persist.stored() == old(self).persist.stored().insert(
                            key_str(siid, piid),
                            value@,
                        )
                        &&& final(self).handler.calls() == (if old(self).is_hooked(siid, piid) {
                            old(self).handler.calls().push((siid, piid, value@))
                        } else {
                            old(self).handler.calls()
                        })
                        &&& logged(lo, ln, notify_line(siid, piid, value@))
                        &&& ln.last().reply is None
                    })
                    &&& (r is Err ==> r == Err::<(), Error>(Error::Persist) || r == Err::<
                        (),
                        Error,
                    >(Error::Timeout))
                })
            }),
    {
        let ghost vm = value@;
        let k64 = make_key64(siid, piid);
        let changed: bool = match self.properties.get(&k64) {
            None => {
                return Ok(());
            },
            Some(st) => !(st.value == value),
        };
        if !changed {
            return Ok(());
        }
        self.properties.insert(k64, Storage { siid, piid, value: value.clone() });
        proof {
            assert(self.props() =~= old(self).props().insert(key(siid, piid), vm));
        }
        let kstr = make_key(siid, piid);
        match self.persist.save(kstr.as_str(), &value) {
            Err(_) => {
                return Err(Error::Persist);
            },
            Ok(()) => {},
        }
        if pairs_contains(&self.hooked, siid, piid) {
            self.handler.on_change(siid, piid, &value);
        }
        let mut line = String::from_str("properties_changed ");
        let sdec = u32_to_string(siid);
        line.append(sdec.as_str());
        line.append(" ");
        let pdec = u32_to_string(piid);
        line.append(pdec.as_str());
        line.append(" ");
        let vtext = value.render();
        line.append(vtext.as_str());
        match self.serial.send(line.as_str()) {
            Err(e) => Err(e),
            Ok(_) => Ok(()),
        }
    }

    /// Restores the most recently registered slot from the durable
    /// store: a persisted value, if there is one, is applied as an
    /// ordinary write, so callbacks fire and the change is announced.
    pub fn load(&mut self) -> (r: Result<(), Error>)
        ensures
            final(self).hooked == old(self).hooked,
            final(self).model == old(self).model,
            final(self).version == old(self).version,
            final(self).pid == old(self).pid,
            final(self).siid == old(self).siid,
            final(self).piid == old(self).piid,
            ({
                let ks = key_str(old(self).siid, old(self).piid);
                let k = key(old(self).siid, old(self).piid);
                let st = old(self).persist.stored();
                let lo = old(self).serial.transport.log();
                let ln = final(self).serial.transport.log();
                match r {
                    Ok(()) => {
                        &&& (!st.contains_key(ks) ==> *final(self) == *old(self))
                        &&& (st.contains_key(ks) ==> {
                            let v = st[ks];
                            &&& (!old(self).props().contains_key(k) ==> *final(self) == *old(
                                self,
                            ))
                            &&& (old(self).props().contains_key(k) && old(self).props()[k] == v
                                ==> *final(self) == *old(self))
                            &&& (old(self).props().contains_key(k) && old(self).props()[k] != v
                                ==> {
                                &&& final(self).props() == old(self).props().insert(k, v)
                                &&& final(self).persist.stored() == st.insert(ks, v)
                                &&& final(self).handler.calls() == (if old(self).is_hooked(
                                    old(self).siid,
                                    old(self).piid,
                                ) {
                                    old(self).handler.calls().push(
                                        (old(self).siid, old(self).piid, v),
                                    )
                                } else {
                                    old(self).handler.calls()
                                })
                                &&& logged(lo, ln, notify_line(old(self).siid, old(self).piid, v))
                            })
                        })
                    },
                    Err(e) => {
                        &&& (e == Error::Persist || e == Error::Timeout)
                        &&& (e == Error::Persist ==> (*final(self) == *old(self)) || ({
                            let v = st[ks];
                            &&& st.contains_key(ks)
                            &&& old(self).props().contains_key(k)
                            &&& old(self).props()[k] != v
                            &&& final(self).props() == old(self).props().insert(k, v)
                            &&& final(self).handler.calls() == old(self).handler.calls()
                            &&& ln == lo
                        }))
                        &&& (e == Error::Timeout ==> ({
                            let v = st[ks];
                            &&& st.contains_key(ks)
                            &&& old(self).props().contains_key(k)
                            &&& old(self).props()[k] != v
                            &&& final(self).props() == old(self).props().insert(k, v)
                            &&& final(self).persist.stored() == st.insert(ks, v)
                            &&& final(self).handler.calls() == (if old(self).is_hooked(
                                old(self).siid,
                                old(self).piid,
                            ) {
                                old(self).handler.calls().push(
                                    (old(self).siid, old(self).piid, v),
                                )
                            } else {
                                old(self).handler.calls()
                            })
                            &&& logged(lo, ln, notify_line(old(self).siid, old(self).piid, v))
                            &&& ln.last().reply is None
                        }))
                    },
                }
            }),
    {
        let siid = self.siid;
        let piid = self.piid;
        let kstr = make_key(siid, piid);
        match self.persist.load(kstr.as_str()) {
            Err(_) => Err(Error::Persist),
            Ok(None) => Ok(()),
            Ok(Some(v)) => self.set_property(siid, piid, v),
        }
    }
}

/// The `<siid> <piid>` prefix of one response entry.
pub open spec fn id_prefix(siid: u32, piid: u32) -> Seq<char> {
    spec_dec(siid as nat) + " "@ + spec_dec(piid as nat)
}

fn append_ids(out: &mut String, siid: u32, piid: u32)
    ensures
        final(out)@ == old(out)@ + id_prefix(siid, piid),
{
    let s = u32_to_string(siid);
    out.append(s.as_str());
    out.append(" ");
    let p = u32_to_string(piid);
    out.append(p.as_str());
    proof {
        assert(final(out)@ =~= old(out)@ + id_prefix(siid, piid));
    }
}

/// One entry of a read response: `<siid> <piid> 0 <value>` for a
/// registered slot, `<siid> <piid> -4003` (property not found) for an
/// unregistered one.
pub open spec fn get_entry(m: Map<u64, ValueModel>, siid: u32, piid: u32) -> Seq<char> {
    if m.contains_key(key(siid, piid)) {
        id_prefix(siid, piid) + " 0 "@ + spec_render(m[key(siid, piid)])
    } else {
        id_prefix(siid, piid) + " -4003"@
    }
}

/// The entries of a read response, joined by single spaces, in request
/// order.
pub open spec fn get_body(m: Map<u64, ValueModel>, ps: Seq<PropertyModel>) -> Seq<char>
    decreases ps.len(),
{
    if ps.len() == 0 {
        Seq::<char>::empty()
    } else if ps.len() == 1 {
        get_entry(m, ps[0].siid, ps[0].piid)
    } else {
        get_body(m, ps.drop_last()) + " "@ + get_entry(m, ps.last().siid, ps.last().piid)
    }
}

/// The whole read response line.
pub open spec fn get_response(m: Map<u64, ValueModel>, ps: Seq<PropertyModel>) -> Seq<char> {
    "result "@ + get_body(m, ps)
}

/// Whether one batch write entry is applied: it carries a value and
/// addresses a registered slot.
pub open spec fn applied(m: Map<u64, ValueModel>, p: PropertyModel) -> bool {
    p.value is Some && m.contains_key(key(p.siid, p.piid))
}

/// The result-line entries of a batch write, in request order: `0` for
/// an applied entry, `-4003` for an unregistered slot; an entry without
/// a value contributes nothing.
pub open spec fn set_resp_entries(m: Map<u64, ValueModel>, ps: Seq<PropertyModel>) -> Seq<
    Seq<char>,
>
    decreases ps.len(),
{
    if ps.len() == 0 {
        Seq::<Seq<char>>::empty()
    } else {
        let prev = set_resp_entries(m, ps.drop_last());
        let p = ps.last();
        match p.value {
            None => prev,
            Some(_) => if m.contains_key(key(p.siid, p.piid)) {
                prev.push(id_prefix(p.siid, p.piid) + " 0"@)
            } else {
                prev.push(id_prefix(p.siid, p.piid) + " -4003"@)
            },
        }
    }
}

/// The changed-line entries of a batch write: one `<siid> <piid>
/// <value>` for each applied entry, in request order.
pub open spec fn set_changed_entries(m: Map<u64, ValueModel>, ps: Seq<PropertyModel>) -> Seq<
    Seq<char>,
>
    decreases ps.len(),
{
    if ps.len() == 0 {
        Seq::<Seq<char>>::empty()
    } else {
        let prev = set_changed_entries(m, ps.drop_last());
        let p = ps.last();
        match p.value {
            Some(v) => if m.contains_key(key(p.siid, p.piid)) {
                prev.push(id_prefix(p.siid, p.piid) + " "@ + spec_render(v))
            } else {
                prev
            },
            None => prev,
        }
    }
}

/// Entries joined by single spaces.
pub open spec fn join_sp(es: Seq<Seq<char>>) -> Seq<char>
    decreases es.len(),
{
    if es.len() == 0 {
        Seq::<char>::empty()
    } else if es.len() == 1 {
        es[0]
    } else {
        join_sp(es.drop_last()) + " "@ + es.last()
    }
}

/// The registry after a batch write: every applied entry stores its
/// value, in request order.
pub open spec fn set_final_props(m: Map<u64, ValueModel>, ps: Seq<PropertyModel>) -> Map<
    u64,
    ValueModel,
>
    decreases ps.len(),
{
    if ps.len() == 0 {
        m
    } else {
        let prev = set_final_props(m, ps.drop_last());
        let p = ps.last();
        match p.value {
            Some(v) => if m.contains_key(key(p.siid, p.piid)) {
                prev.insert(key(p.siid, p.piid), v)
            } else {
                prev
            },
            None => prev,
        }
    }
}

/// The durable store after a batch write: every applied entry is
/// persisted under its slot's key, in request order.
pub open spec fn set_stored(
    st: Map<Seq<char>, ValueModel>,
    m: Map<u64, ValueModel>,
    ps: Seq<PropertyModel>,
) -> Map<Seq<char>, ValueModel>
    decreases ps.len(),
{
    if ps.len() == 0 {
        st
    } else {
        let prev = set_stored(st, m, ps.drop_last());
        let p = ps.last();
        match p.value {
            Some(v) => if m.contains_key(key(p.siid, p.piid)) {
                prev.insert(key_str(p.siid, p.piid), v)
            } else {
                prev
            },
            None => prev,
        }
    }
}

/// The handler's call log after a batch write: one call for each
/// applied entry whose slot is hooked, in request order.
pub open spec fn set_calls(
    calls: Seq<(u32, u32, ValueModel)>,
    m: Map<u64, ValueModel>,
    hooked: Seq<(u32, u32)>,
    ps: Seq<PropertyModel>,
) -> Seq<(u32, u32, ValueModel)>
    decreases ps.len(),
{
    if ps.len() == 0 {
        calls
    } else {
        let prev = set_calls(calls, m, hooked, ps.drop_last());
        let p = ps.last();
        match p.value {
            Some(v) => if m.contains_key(key(p.siid, p.piid)) && hooked.contains(
                (p.siid, p.piid),
            ) {
                prev.push((p.siid, p.piid, v))
            } else {
                prev
            },
            None => prev,
        }
    }
}

/// A batch write interrupted by a persistence failure at entry `j`:
/// every applicable entry before `j` is fully applied and reported,
/// entry `j`'s value is already stored in the registry but its callback
/// has not run, and nothing after `j` is touched. What the durable
/// store holds after its failing write is the store's own affair.
pub open spec fn batch_stopped_at(
    m0: Map<u64, ValueModel>,
    calls0: Seq<(u32, u32, ValueModel)>,
    hooked: Seq<(u32, u32)>,
    ps: Seq<PropertyModel>,
    props1: Map<u64, ValueModel>,
    calls1: Seq<(u32, u32, ValueModel)>,
    j: int,
) -> bool {
    &&& 0 <= j < ps.len()
    &&& applied(m0, ps[j])
    &&& props1 == set_final_props(m0, ps.take(j + 1))
    &&& calls1 == set_calls(calls0, m0, hooked, ps.take(j))
}

impl<T: Transport, P: Persist, H: OnChange> IoTFramework<T, P, H> {
    /// Builds the response line for a read request: one entry per
    /// requested slot, in request order, under the `result` prefix.
    /// Nothing is sent and nothing changes.
    pub fn on_get_properties(&self, props: Vec<Property>) -> (r: String)
        ensures
            r@ == get_response(self.props(), props.deep_view()),
    {
        let ghost full = props.deep_view();
        let mut out = String::from_str("result ");
        let n = props.len();
        let mut i: usize = 0;
        proof {
            assert(full.take(0) =~= Seq::<PropertyModel>::empty());
            assert(out@ =~= "result "@ + get_body(self.props(), full.take(0)));
        }
        while i < n
            invariant
                i <= n,
                n == props@.len(),
                full == props.deep_view(),
                out@ == "result "@ + get_body(self.props(), full.take(i as int)),
            decreases n - i,
        {
            proof {
                assert(full.take(i + 1).drop_last() =~= full.take(i as int));
                assert(full.take(i + 1).last() == props@[i as int].deep_view());
            }
            if i > 0 {
                out.append(" ");
            }
            let siid = props[i].siid;
            let piid = props[i].piid;
            let k = make_key64(siid, piid);
            append_ids(&mut out, siid, piid);
            match self.properties.get(&k) {
                Some(st) => {
                    out.append(" 0 ");
                    let vt = st.value.render();
                    out.append(vt.as_str());
                },
                None => {
                    out.append(" -4003");
                },
            }
            proof {
                assert(out@ =~= "result "@ + get_body(self.props(), full.take(i + 1)));
            }
            i += 1;
        }
        proof {
            assert(full.take(n as int) =~= full);
        }
        out
    }

    /// Applies a batch write. Each entry that carries a value and
    /// addresses a registered slot is stored, persisted, and reported
    /// to the handler if hooked — with no equality short-circuit: a
    /// batch write always re-applies and re-notifies. An unregistered
    /// slot contributes a `-4003` entry to the result line only; an
    /// entry without a value contributes nothing. Returns the `result`
    /// line and the `properties_changed` line; nothing is sent here.
    pub fn on_set_properties(&mut self, props: Vec<Property>) -> (r: Result<Vec<String>, Error>)
        ensures
            final(self).hooked == old(self).hooked,
            final(self).serial == old(self).serial,
            final(self).model == old(self).model,
            final(self).version == old(self).version,
            final(self).pid == old(self).pid,
            final(self).siid == old(self).siid,
            final(self).piid == old(self).piid,
            ({
                let m0 = old(self).props();
                match r {
                    Ok(lines) => {
                        &&& lines@.len() == 2
                        &&& lines@[0]@ == "result "@ + join_sp(
                            set_resp_entries(m0, props.deep_view()),
                        )
                        &&& lines@[1]@ == "properties_changed "@ + join_sp(
                            set_changed_entries(m0, props.deep_view()),
                        )
                        &&& final(self).props() == set_final_props(m0, props.deep_view())
                        &&& final(self).persist.stored() == set_stored(
                            old(self).persist.stored(),
                            m0,
                            props.deep_view(),
                        )
                        &&& final(self).handler.calls() == set_calls(
                            old(self).handler.calls(),
                            m0,
                            old(self).hooked@,
                            props.deep_view(),
                        )
                    },
                    Err(e) => {
                        &&& e == Error::Persist
                        &&& exists|j: int|
                            #[trigger] batch_stopped_at(
                                m0,
                                old(self).handler.calls(),
                                old(self).hooked@,
                                props.deep_view(),
                                final(self).props(),
                                final(self).handler.calls(),
                                j,
                            )
                    },
                }
            }),
    {
        let ghost m0 = self.props();
        let ghost st0 = self.persist.stored();
        let ghost calls0 = self.handler.calls();
        let ghost full = props.deep_view();
        let mut resp = String::new();
        let mut resp_any = false;
        let mut chg = String::new();
        let mut chg_any = false;
        let n = props.len();
        let mut i: usize = 0;
        proof {
            assert(full.take(0) =~= Seq::<PropertyModel>::empty());
        }
        while i < n
            invariant
                i <= n,
                n == props@.len(),
                full == props.deep_view(),
                m0 == old(self).props(),
                st0 == old(self).persist.stored(),
                calls0 == old(self).handler.calls(),
                self.props() == set_final_props(m0, full.take(i as int)),
                self.props().dom() == m0.dom(),
                self.persist.stored() == set_stored(st0, m0, full.take(i as int)),
                self.handler.calls() == set_calls(calls0, m0, old(self).hooked@, full.take(
                    i as int,
                )),
                self.hooked == old(self).hooked,
                self.serial == old(self).serial,
                self.model == old(self).model,
                self.version == old(self).version,
                self.pid == old(self).pid,
                self.siid == old(self).siid,
                self.piid == old(self).piid,
                resp@ == join_sp(set_resp_entries(m0, full.take(i as int))),
                resp_any == (set_resp_entries(m0, full.take(i as int)).len() > 0),
                chg@ == join_sp(set_changed_entries(m0, full.take(i as int))),
                chg_any == (set_changed_entries(m0, full.take(i as int)).len() > 0),
            decreases n - i,
        {
            proof {
                assert(full.take(i + 1).drop_last() =~= full.take(i as int));
                assert(full.take(i + 1).last() == props@[i as int].deep_view());
            }
            let siid = props[i].siid;
            let piid = props[i].piid;
            match &props[i].value {
                None => {},
                Some(v) => {
                    let value = v.clone();
                    let ghost vm = value@;
                    let k64 = make_key64(siid, piid);
                    if self.properties.contains_key(&k64) {
                        if resp_any {
                            resp.append(" ");
                        }
                        append_ids(&mut resp, siid, piid);
                        resp.append(" 0");
                        resp_any = true;
                        proof {
                            let prev = set_resp_entries(m0, full.take(i as int));
                            let e = id_prefix(siid, piid) + " 0"@;
                            assert(set_resp_entries(m0, full.take(i + 1)) == prev.push(e));
                            assert(prev.push(e).drop_last() =~= prev);
                            assert(prev.push(e).last() == e);
                            if prev.len() == 0 {
                                assert(join_sp(prev.push(e)) == e);
                                assert(resp@ =~= e);
                            } else {
                                assert(join_sp(prev.push(e)) == join_sp(prev) + " "@ + e);
                                assert(resp@ =~= join_sp(prev) + " "@ + e);
                            }
                        }
                        if chg_any {
                            chg.append(" ");
                        }
                        append_ids(&mut chg, siid, piid);
                        chg.append(" ");
                        let vt = value.render();
                        chg.append(vt.as_str());
                        chg_any = true;
                        proof {
                            let prev = set_changed_entries(m0, full.take(i as int));
                            let e = id_prefix(siid, piid) + " "@ + spec_render(vm);
                            assert(set_changed_entries(m0, full.take(i + 1)) == prev.push(e));
                            assert(prev.push(e).drop_last() =~= prev);
                            assert(prev.push(e).last() == e);
                            if prev.len() == 0 {
                                assert(join_sp(prev.push(e)) == e);
                                assert(chg@ =~= e);
                            } else {
                                assert(join_sp(prev.push(e)) == join_sp(prev) + " "@ + e);
                                assert(chg@ =~= join_sp(prev) + " "@ + e);
                            }
                        }
                        let ghost props_before = self.props();
                        self.properties.insert(k64, Storage { siid, piid, value: value.clone() });
                        proof {
                            assert(self.props() =~= props_before.insert(key(siid, piid), vm));
                            assert(self.props().dom() =~= m0.dom());
                        }
                        let kstr = make_key(siid, piid);
                        match self.persist.save(kstr.as_str(), &value) {
                            Err(_) => {
                                proof {
                                    assert(batch_stopped_at(
                                        m0,
                                        calls0,
                                        old(self).hooked@,
                                        full,
                                        self.props(),
                                        self.handler.calls(),
                                        i as int,
                                    ));
                                }
                                return Err(Error::Persist);
                            },
                            Ok(()) => {},
                        }
                        if pairs_contains(&self.hooked, siid, piid) {
                            self.handler.on_change(siid, piid, &value);
                        }
                    } else {
                        if resp_any {
                            resp.append(" ");
                        }
                        append_ids(&mut resp, siid, piid);
                        resp.append(" -4003");
                        resp_any = true;
                        proof {
                            let prev = set_resp_entries(m0, full.take(i as int));
                            let e = id_prefix(siid, piid) + " -4003"@;
                            assert(set_resp_entries(m0, full.take(i + 1)) == prev.push(e));
                            assert(prev.push(e).drop_last() =~= prev);
                            assert(prev.push(e).last() == e);
                            if prev.len() == 0 {
                                assert(join_sp(prev.push(e)) == e);
                                assert(resp@ =~= e);
                            } else {
                                assert(join_sp(prev.push(e)) == join_sp(prev) + " "@ + e);
                                assert(resp@ =~= join_sp(prev) + " "@ + e);
                            }
                        }
                    }
                },
            }
            i += 1;
        }
        proof {
            assert(full.take(n as int) =~= full);
        }
        let mut line0 = String::from_str("result ");
        line0.append(resp.as_str());
        let mut line1 = String::from_str("properties_changed ");
        line1.append(chg.as_str());
        let mut lines: Vec<String> = Vec::new();
        lines.push(line0);
        lines.push(line1);
        Ok(lines)
    }
}

impl<T: Transport, P: Persist, H: OnChange> IoTFramework<T, P, H> {
    /// Repeats the factory-restore path and the handshake: `restore`,
    /// `reboot`, the model announcement (mandatory), then the version
    /// announcement (best effort). The registry itself is untouched.
    pub fn restore(&mut self) -> (r: Result<(), Error>)
        ensures
            final(self).properties == old(self).properties,
            final(self).hooked == old(self).hooked,
            final(self).persist == old(self).persist,
            final(self).handler == old(self).handler,
            final(self).model == old(self).model,
            final(self).version == old(self).version,
            final(self).pid == old(self).pid,
            final(self).siid == old(self).siid,
            final(self).piid == old(self).piid,
            ({
                let lo = old(self).serial.transport.log();
                let ln = final(self).serial.transport.log();
                &&& ln.len() >= lo.len() + 1
                &&& ln.subrange(0, lo.len() as int) == lo
                &&& ln[lo.len() as int].sent == "restore"@
                &&& (r is Ok ==> {
                    &&& ln.len() >= lo.len() + 4
                    &&& ln[lo.len() as int].reply == Some("ok"@)
                    &&& ln[lo.len() as int + 1].sent == "reboot"@
                    &&& ln[lo.len() as int + 1].reply == Some("ok"@)
                    &&& ln[lo.len() as int + 2].sent == crate::serial::model_line(
                        old(self).model@,
                    )
                    &&& ln[lo.len() as int + 2].reply == Some("ok"@)
                })
                &&& (ln[lo.len() as int].reply == Some("ok"@) ==> ln.len() >= lo.len() + 2
                    && ln[lo.len() as int + 1].sent == "reboot"@)
                &&& (ln.len() >= lo.len() + 2 && ln[lo.len() as int + 1].reply == Some("ok"@)
                    ==> ln.len() >= lo.len() + 3 && ln[lo.len() as int + 2].sent
                    == crate::serial::model_line(old(self).model@))
                &&& (ln.len() >= lo.len() + 3 && ln[lo.len() as int + 2].reply == Some("ok"@)
                    ==> ln.len() >= lo.len() + 4 && ln[lo.len() as int + 3].sent
                    == crate::serial::version_line(old(self).version@))
                &&& (r == Err::<(), Error>(Error::Timeout) ==> ln.last().reply is None)
                &&& (r == Err::<(), Error>(Error::UnexpectedReply) ==> ln.last().reply is Some
                    && ln.last().reply != Some("ok"@))
                &&& (r matches Err(e) ==> e == Error::Timeout || e == Error::UnexpectedReply)
            }),
    {
        let ghost lo = self.serial.transport.log();
        match self.serial.restore() {
            Err(e) => {
                return Err(e);
            },
            Ok(()) => {},
        }
        let ghost l1 = self.serial.transport.log();
        match self.serial.model(self.model) {
            Err(e) => {
                proof {
                    assert(self.serial.transport.log().subrange(0, lo.len() as int) =~= lo);
                }
                return Err(e);
            },
            Ok(()) => {},
        }
        proof {
            assert(self.serial.transport.log().subrange(0, lo.len() as int) =~= lo);
            assert(self.serial.transport.log()[lo.len() as int] == l1[lo.len() as int]);
            assert(self.serial.transport.log()[lo.len() as int + 1] == l1[lo.len() as int + 1]);
        }
        let ghost l2 = self.serial.transport.log();
        let _ = self.serial.version(self.version, self.pid);
        proof {
            let ln = self.serial.transport.log();
            assert(ln.subrange(0, l2.len() as int) == l2);
            assert(ln.subrange(0, lo.len() as int) =~= lo);
            assert(ln[lo.len() as int] == l2[lo.len() as int]);
            assert(ln[lo.len() as int + 1] == l2[lo.len() as int + 1]);
            assert(ln[lo.len() as int + 2] == l2[lo.len() as int + 2]);
            assert(ln[lo.len() as int + 3] == ln[l2.len() as int]);
        }
        Ok(())
    }

    /// One steady-state cycle: poll for one downlink line, classify
    /// it, apply a read or write request to the registry, and transmit
    /// every resulting response line. A poll timeout, an unexpected
    /// reply and a malformed command are tolerated; only a persistence
    /// failure during a write batch is surfaced.
    pub fn tick(&mut self) -> (r: Result<(), Error>)
        ensures
            final(self).hooked == old(self).hooked,
            final(self).model == old(self).model,
            final(self).version == old(self).version,
            final(self).pid == old(self).pid,
            final(self).siid == old(self).siid,
            final(self).piid == old(self).piid,
            r matches Err(e) ==> e == Error::Persist,
            ({
                let lo = old(self).serial.transport.log();
                let ln = final(self).serial.transport.log();
                let m0 = old(self).props();
                let quiet = final(self).props() == m0 && final(self).persist.stored() == old(
                    self,
                ).persist.stored() && final(self).handler.calls() == old(self).handler.calls();
                &&& ln.len() > lo.len()
                &&& ln.subrange(0, lo.len() as int) == lo
                &&& ln[lo.len() as int].sent == "get_down"@
                &&& (ln[lo.len() as int].reply is None ==> ln.len() == lo.len() + 1 && r is Ok
                    && quiet)
                &&& (ln[lo.len() as int].reply matches Some(text) ==> ({
                    let m = spec_classify(text);
                    &&& (m is Idle ==> ln.len() == lo.len() + 1 && r is Ok && quiet)
                    &&& (m is NetChange ==> ln.len() == lo.len() + 1 && r is Ok && quiet)
                    &&& (m is Unknown ==> ln.len() == lo.len() + 1 && r is Ok && quiet)
                    &&& (m is Malformed ==> ln.len() == lo.len() + 1 && r is Ok && quiet)
                    &&& (m is Unexpected ==> ln.len() == lo.len() + 1 && r is Ok && quiet)
                    &&& (m is PowerMode ==> ln.len() == lo.len() + 2 && ln[lo.len() as int
                        + 1].sent == "result 1"@ && r is Ok && quiet)
                    &&& (m matches DownModel::GetProperties(ps) ==> {
                        &&& ln.len() == lo.len() + 2
                        &&& ln[lo.len() as int + 1].sent == get_response(m0, ps)
                        &&& r is Ok
                        &&& quiet
                    })
                    &&& (m matches DownModel::SetProperties(ps) ==> {
                        &&& (r is Ok ==> {
                            &&& ln.len() == lo.len() + 3
                            &&& ln[lo.len() as int + 1].sent == "result "@ + join_sp(
                                set_resp_entries(m0, ps),
                            )
                            &&& ln[lo.len() as int + 2].sent == "properties_changed "@ + join_sp(
                                set_changed_entries(m0, ps),
                            )
                            &&& final(self).props() == set_final_props(m0, ps)
                            &&& final(self).persist.stored() == set_stored(
                                old(self).persist.stored(),
                                m0,
                                ps,
                            )
                            &&& final(self).handler.calls() == set_calls(
                                old(self).handler.calls(),
                                m0,
                                old(self).hooked@,
                                ps,
                            )
                        })
                        &&& (r is Err ==> {
                            &&& r == Err::<(), Error>(Error::Persist)
                            &&& ln.len() == lo.len() + 1
                            &&& exists|j: int|
                                #[trigger] batch_stopped_at(
                                    m0,
                                    old(self).handler.calls(),
                                    old(self).hooked@,
                                    ps,
                                    final(self).props(),
                                    final(self).handler.calls(),
                                    j,
                                )
                        })
                    })
                }))
            }),
    {
        let ghost lo = self.serial.transport.log();
        match self.serial.get_down() {
            Ok(Some(event)) => match event {
                Event::SetProperties(ps) => {
                    let ghost l1 = self.serial.transport.log();
                    let ghost ps_model = ps.deep_view();
                    let ghost m0 = self.props();
                    let ghost calls0 = self.handler.calls();
                    let ghost hooked0 = self.hooked@;
                    let lines = match self.on_set_properties(ps) {
                        Err(e) => {
                            proof {
                                let j = choose|j: int|
                                    batch_stopped_at(
                                        m0,
                                        calls0,
                                        hooked0,
                                        ps_model,
                                        self.props(),
                                        self.handler.calls(),
                                        j,
                                    );
                                assert(batch_stopped_at(
                                    old(self).props(),
                                    old(self).handler.calls(),
                                    old(self).hooked@,
                                    ps_model,
                                    self.props(),
                                    self.handler.calls(),
                                    j,
                                ));
                            }
                            return Err(e);
                        },
                        Ok(lines) => lines,
                    };
                    let _ = self.serial.send(lines[0].as_str());
                    proof {
                        assert(self.serial.transport.log().subrange(0, lo.len() as int) =~= lo);
                        assert(self.serial.transport.log()[lo.len() as int] == l1[lo.len() as int]);
                    }
                    let _ = self.serial.send(lines[1].as_str());
                    proof {
                        let ln = self.serial.transport.log();
                        assert(ln.subrange(0, lo.len() as int) =~= lo);
                        assert(ln[lo.len() as int] == l1[lo.len() as int]);
                        assert(ln[lo.len() as int + 1] == ln.drop_last()[lo.len() as int + 1]);
                    }
                    Ok(())
                },
                Event::GetProperties(ps) => {
                    let ghost l1 = self.serial.transport.log();
                    let line = self.on_get_properties(ps);
                    let _ = self.serial.send(line.as_str());
                    proof {
                        assert(self.serial.transport.log().subrange(0, lo.len() as int) =~= lo);
                        assert(self.serial.transport.log()[lo.len() as int] == l1[lo.len() as int]);
                    }
                    Ok(())
                },
                Event::Unknown => Ok(()),
            },
            _ => Ok(()),
        }
    }
}

/// The registry map after a batch of registrations, applied in order.
pub open spec fn registered_after(
    m: Map<u64, ValueModel>,
    values: Seq<(u32, u32, Value)>,
) -> Map<u64, ValueModel>
    decreases values.len(),
{
    if values.len() == 0 {
        m
    } else {
        registered_after(m, values.drop_last()).insert(
            key(values.last().0, values.last().1),
            values.last().2@,
        )
    }
}

} // verus!
