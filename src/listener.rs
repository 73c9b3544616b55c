use vstd::prelude::*;
use vstd::utf8::{encode_utf8, valid_utf8};
use crate::framer::{Framer, has_terminator, pending_after, records_of};

verus! {

/// What one timed read of a device gave.
pub enum ReadOutcome {
    /// Bytes that the device sent.
    Data(Vec<u8>),
    /// Nothing arrived in time; the unit reads again.
    Timeout,
    /// The device failed or went away; the unit stops for good.
    Fatal(String),
}

/// What `String::from_utf8_lossy` makes of a byte sequence.
pub uninterp spec fn decoded(b: Seq<u8>) -> Seq<char>;

/// Relies on `String::from_utf8_lossy`: invalid sequences are replaced, and
/// valid UTF-8 is decoded as it stands.
#[verifier::external_body]
fn decode_lossy(b: &[u8]) -> (r: String)
    ensures
        r@ == decoded(b@),
        valid_utf8(b@) ==> encode_utf8(r@) == b@,
{
    String::from_utf8_lossy(b).into_owned()
}

/// The state of one listening unit: its pending record and whether it still
/// listens.
pub struct ListenerView {
    pub pending: Seq<char>,
    pub active: bool,
}

/// A listening unit's state after one read.
pub open spec fn after_read(v: ListenerView, outcome: ReadOutcome) -> ListenerView {
    if !v.active {
        v
    } else {
        match outcome {
            ReadOutcome::Data(b) => ListenerView {
                pending: pending_after(v.pending, decoded(b@)),
                active: true,
            },
            ReadOutcome::Timeout => v,
            ReadOutcome::Fatal(_) => ListenerView { pending: v.pending, active: false },
        }
    }
}

/// The records that one read completes.
pub open spec fn records_of_read(v: ListenerView, outcome: ReadOutcome) -> Seq<Seq<char>> {
    match outcome {
        ReadOutcome::Data(b) => if v.active {
            records_of(v.pending, decoded(b@))
        } else {
            Seq::empty()
        },
        _ => Seq::empty(),
    }
}

/// One listening unit: the private framer of one open device, and whether
/// the unit still listens.
pub struct Listener {
    framer: Framer,
    active: bool,
}

impl View for Listener {
    type V = ListenerView;

    closed spec fn view(&self) -> ListenerView {
        ListenerView { pending: self.framer@, active: self.active }
    }
}

impl Listener {
    pub open spec fn wf(&self) -> bool {
        !has_terminator(self@.pending)
    }

    pub fn new() -> (l: Listener)
        ensures
            l@ == (ListenerView { pending: Seq::empty(), active: true }),
            l.wf(),
    {
        Listener { framer: Framer::new(), active: true }
    }

    pub fn is_active(&self) -> (r: bool)
        ensures
            r == self@.active,
    {
        self.active
    }

    /// Takes the outcome of one timed read. Data is decoded and framed, and
    /// the records it completes are returned in order; a timeout changes
    /// nothing; a fatal outcome stops the unit. A stopped unit ignores
    /// whatever comes after.
    pub fn handle(&mut self, outcome: ReadOutcome) -> (records: Vec<String>)
        requires
            old(self).wf(),
        ensures
            final(self).wf(),
            final(self)@ == after_read(old(self)@, outcome),
            records@.map_values(|r: String| r@) == records_of_read(old(self)@, outcome),
            forall|k: int| 0 <= k < records@.len() ==> records@[k]@.len() > 0,
            forall|k: int| 0 <= k < records@.len() ==> !has_terminator(#[trigger] records@[k]@),
    {
        if !self.active {
            let r: Vec<String> = Vec::new();
            assert(r@.map_values(|r: String| r@) =~= Seq::<Seq<char>>::empty());
            return r;
        }
        match outcome {
            ReadOutcome::Data(b) => {
                let text = decode_lossy(b.as_slice());
                self.framer.feed(text.as_str())
            },
            ReadOutcome::Timeout => {
                let r: Vec<String> = Vec::new();
                assert(r@.map_values(|r: String| r@) =~= Seq::<Seq<char>>::empty());
                r
            },
            ReadOutcome::Fatal(_) => {
                self.active = false;
                let r: Vec<String> = Vec::new();
                assert(r@.map_values(|r: String| r@) =~= Seq::<Seq<char>>::empty());
                r
            },
        }
    }
}

/// A timeout completes no record and leaves the unit as it was, listening
/// if it listened.
pub proof fn lemma_timeout_is_idle(v: ListenerView)
    ensures
        after_read(v, ReadOutcome::Timeout) == v,
        records_of_read(v, ReadOutcome::Timeout).len() == 0,
{
}

/// The listening units of all open devices, one per device, each with its
/// own state.
pub struct ListenerSet {
    units: Vec<Listener>,
}

impl View for ListenerSet {
    type V = Seq<ListenerView>;

    closed spec fn view(&self) -> Seq<ListenerView> {
        self.units@.map_values(|l: Listener| l@)
    }
}

/// The units after one of them took the outcome of a read: that one moves
/// on, the others stay as they were.
pub open spec fn delivered(units: Seq<ListenerView>, k: int, outcome: ReadOutcome) -> Seq<
    ListenerView,
> {
    units.update(k, after_read(units[k], outcome))
}

impl ListenerSet {
    pub closed spec fn wf(&self) -> bool {
        forall|k: int| 0 <= k < self.units@.len() ==> (#[trigger] self.units@[k]).wf()
    }

    pub fn new() -> (r: ListenerSet)
        ensures
            r@ == Seq::<ListenerView>::empty(),
            r.wf(),
    {
        let r = ListenerSet { units: Vec::new() };
        assert(r@ =~= Seq::<ListenerView>::empty());
        r
    }

    pub fn len(&self) -> (r: usize)
        ensures
            r == self@.len(),
    {
        self.units.len()
    }

    /// Whether unit `k` still listens.
    pub fn is_active(&self, k: usize) -> (r: bool)
        requires
            k < self@.len(),
        ensures
            r == self@[k as int].active,
    {
        self.units[k].is_active()
    }

    /// Starts a new listening unit, with an empty pending record, and
    /// returns its index.
    pub fn start(&mut self) -> (k: usize)
        requires
            old(self).wf(),
        ensures
            final(self).wf(),
            k == old(self)@.len(),
            final(self)@ == old(self)@.push(ListenerView { pending: Seq::empty(), active: true }),
    {
        let k = self.units.len();
        self.units.push(Listener::new());
        assert(self@ =~= old(self)@.push(ListenerView { pending: Seq::empty(), active: true }));
        k
    }

    /// Hands the outcome of a read of device `k` to its unit alone, and
    /// returns the records it completes.
    pub fn deliver(&mut self, k: usize, outcome: ReadOutcome) -> (records: Vec<String>)
        requires
            old(self).wf(),
            k < old(self)@.len(),
        ensures
            final(self).wf(),
            final(self)@ == delivered(old(self)@, k as int, outcome),
            records@.map_values(|r: String| r@) == records_of_read(old(self)@[k as int], outcome),
            forall|j: int| 0 <= j < records@.len() ==> records@[j]@.len() > 0,
    {
        let ghost before = self.units@;
        let mut unit = self.units.remove(k);
        assert(before[k as int].wf());
        let records = unit.handle(outcome);
        self.units.insert(k, unit);
        assert(self.units@ =~= before.update(k as int, unit));
        assert(self@ =~= delivered(old(self)@, k as int, outcome));
        assert forall|j: int| 0 <= j < self.units@.len() implies (#[trigger] self.units@[j]).wf() by {
            if j != k {
                assert(self.units@[j] == before[j]);
            }
        }
        records
    }
}

/// A fatal read stops exactly the unit it came to; every other unit keeps
/// its state, pending record and all.
pub proof fn lemma_fatal_stops_one(units: Seq<ListenerView>, k: int, reason: String)
    requires
        0 <= k < units.len(),
    ensures
        delivered(units, k, ReadOutcome::Fatal(reason)).len() == units.len(),
        !delivered(units, k, ReadOutcome::Fatal(reason))[k].active,
        delivered(units, k, ReadOutcome::Fatal(reason))[k].pending == units[k].pending,
        forall|j: int|
            0 <= j < units.len() && j != k ==> #[trigger] delivered(
                units,
                k,
                ReadOutcome::Fatal(reason),
            )[j] == units[j],
{
}

} // verus!
