use vstd::prelude::*;

verus! {

/// An attached HID device as the device list reports it.
pub struct DeviceDescriptor {
    pub vendor_id: u16,
    pub product_id: u16,
    /// The platform path that identifies the device.
    pub path: String,
    /// The human-readable product name, where the device gives one.
    pub product_name: Option<String>,
}

impl DeviceDescriptor {
    pub open spec fn matches(&self, vendor_id: u16, product_id: u16) -> bool {
        self.vendor_id == vendor_id && self.product_id == product_id
    }

    pub fn is_match(&self, vendor_id: u16, product_id: u16) -> (r: bool)
        ensures
            r == self.matches(vendor_id, product_id),
    {
        self.vendor_id == vendor_id && self.product_id == product_id
    }

    /// A copy of the descriptor, field for field.
    pub fn duplicate(&self) -> (r: DeviceDescriptor)
        ensures
            r == *self,
    {
        let product_name = match &self.product_name {
            Some(n) => Some(n.clone()),
            None => None,
        };
        DeviceDescriptor {
            vendor_id: self.vendor_id,
            product_id: self.product_id,
            path: self.path.clone(),
            product_name,
        }
    }
}

/// The devices of a list that carry the given vendor and product ids.
pub open spec fn matching(devices: Seq<DeviceDescriptor>, vendor_id: u16, product_id: u16) -> Seq<
    DeviceDescriptor,
> {
    devices.filter(|d: DeviceDescriptor| d.matches(vendor_id, product_id))
}

/// Every device of the list whose vendor and product ids are exactly the
/// configured pair, in list order. No match gives an empty result.
pub fn select_matching(devices: &Vec<DeviceDescriptor>, vendor_id: u16, product_id: u16) -> (r: Vec<
    DeviceDescriptor,
>)
    ensures
        r@ == matching(devices@, vendor_id, product_id),
{
    let mut r: Vec<DeviceDescriptor> = Vec::new();
    let mut i: usize = 0;
    while i < devices.len()
        invariant
            i <= devices@.len(),
            r@ == matching(devices@.take(i as int), vendor_id, product_id),
        decreases devices@.len() - i,
    {
        proof {
            reveal(Seq::filter);
            assert(devices@.take(i + 1).drop_last() =~= devices@.take(i as int));
        }
        if devices[i].is_match(vendor_id, product_id) {
            r.push(devices[i].duplicate());
        }
        i = i + 1;
    }
    assert(devices@.take(devices@.len() as int) =~= devices@);
    r
}

/// Why a device could not be taken for listening.
#[derive(PartialEq, Eq, Structural)]
pub enum OpenError {
    /// Another listening unit holds the device path.
    DeviceBusy,
}

/// What the registry holds after a claim of `path`.
pub open spec fn claimed_after(paths: Seq<Seq<char>>, path: Seq<char>) -> Seq<Seq<char>> {
    if paths.contains(path) {
        paths
    } else {
        paths.push(path)
    }
}

/// The device paths that are held open, each by exactly one listening unit.
pub struct PathRegistry {
    claimed: Vec<String>,
}

impl View for PathRegistry {
    type V = Seq<Seq<char>>;

    closed spec fn view(&self) -> Seq<Seq<char>> {
        self.claimed@.map_values(|p: String| p@)
    }
}

impl PathRegistry {
    /// No path is held twice.
    pub open spec fn wf(&self) -> bool {
        self@.no_duplicates()
    }

    pub fn new() -> (r: PathRegistry)
        ensures
            r@ == Seq::<Seq<char>>::empty(),
            r.wf(),
    {
        let r = PathRegistry { claimed: Vec::new() };
        assert(r@ =~= Seq::<Seq<char>>::empty());
        r
    }

    fn position(&self, path: &String) -> (r: Option<usize>)
        ensures
            match r {
                Some(k) => k < self@.len() && self@[k as int] == path@,
                None => !self@.contains(path@),
            },
    {
        let mut i: usize = 0;
        while i < self.claimed.len()
            invariant
                i <= self@.len(),
                self@.len() == self.claimed@.len(),
                forall|j: int| 0 <= j < i ==> self@[j] != path@,
            decreases self.claimed@.len() - i,
        {
            if self.claimed[i].eq(path) {
                return Some(i);
            }
            i = i + 1;
        }
        None
    }

    pub fn is_claimed(&self, path: &String) -> (r: bool)
        ensures
            r == self@.contains(path@),
    {
        self.position(path).is_some()
    }

    /// Takes exclusive ownership of a device path. A path that is already
    /// held is refused with `DeviceBusy`, and the registry stays as it was.
    pub fn claim(&mut self, path: &String) -> (r: Result<(), OpenError>)
        requires
            old(self).wf(),
        ensures
            final(self).wf(),
            final(self)@ == claimed_after(old(self)@, path@),
            r is Ok <==> !old(self)@.contains(path@),
            r is Err ==> r == Err::<(), OpenError>(OpenError::DeviceBusy),
    {
        if self.is_claimed(path) {
            Err(OpenError::DeviceBusy)
        } else {
            self.claimed.push(path.clone());
            assert(self@ =~= old(self)@.push(path@));
            Ok(())
        }
    }

    /// Gives a path back, so that it can be claimed again. Returns whether
    /// it was held.
    pub fn release(&mut self, path: &String) -> (r: bool)
        requires
            old(self).wf(),
        ensures
            final(self).wf(),
            r == old(self)@.contains(path@),
            forall|q: Seq<char>|
                #[trigger] final(self)@.contains(q) <==> (old(self)@.contains(q) && q != path@),
    {
        match self.position(path) {
            Some(k) => {
                let ghost before = self@;
                self.claimed.remove(k);
                assert(self@ =~= before.remove(k as int));
                assert forall|q: Seq<char>|
                    #[trigger] self@.contains(q) <==> (before.contains(q) && q != path@) by {
                    if before.contains(q) && q != path@ {
                        let m = choose|m: int| 0 <= m < before.len() && before[m] == q;
                        if m < k {
                            assert(self@[m] == q);
                        } else {
                            assert(self@[m - 1] == q);
                        }
                    }
                    if self@.contains(q) {
                        let m = choose|m: int| 0 <= m < self@.len() && self@[m] == q;
                        if m < k {
                            assert(before[m] == q);
                        } else {
                            assert(before[m + 1] == q);
                        }
                    }
                }
                true
            },
            None => false,
        }
    }
}

/// Claims of two distinct free paths both succeed, and hold both; a second
/// claim of the same path finds it held and is refused.
pub proof fn lemma_claims_are_exclusive(paths: Seq<Seq<char>>, p: Seq<char>, q: Seq<char>)
    requires
        paths.no_duplicates(),
        !paths.contains(p),
        !paths.contains(q),
        p != q,
    ensures
        !claimed_after(paths, p).contains(q),
        claimed_after(claimed_after(paths, p), q).contains(p),
        claimed_after(claimed_after(paths, p), q).contains(q),
        claimed_after(paths, p).contains(p),
        claimed_after(claimed_after(paths, p), p) == claimed_after(paths, p),
{
    let once = paths.push(p);
    assert(once[paths.len() as int] == p);
    assert(once.push(q)[paths.len() as int] == p);
    assert(once.push(q)[once.len() as int] == q);
    if once.contains(q) {
        let m = choose|m: int| 0 <= m < once.len() && once[m] == q;
        if m < paths.len() {
            assert(paths[m] == q);
        }
    }
}

} // verus!
