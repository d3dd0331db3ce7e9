//! Watcher state for sysfs device attributes.
//!
//! Each watched (device, attribute) pair holds the last known trimmed
//! value of the attribute's file. The caller owns the directory watches
//! and the open files; it hands this module the watch handle of each
//! device, the initial file contents at watch time, and, on every poll,
//! the batch of (watch handle, file name, newly read bytes) readings that
//! the pending change notifications produced. This module decides what
//! counts as a change: a comparison that ignores trailing whitespace and
//! newlines (not leading, not internal) against the stored value.
//!
//! Values are held in growable buffers, so long attribute values are
//! stored whole rather than silently truncated.

use vstd::prelude::*;
use vstd::string::StringExecFns;

verus! {

/// Whether `b` is trailing junk: NUL, newline, space or tab.
pub open spec fn is_trail_byte(b: u8) -> bool {
    b == 0x00 || b == 0x0A || b == 0x20 || b == 0x09
}

/// `s` without its trailing NUL, newline, space and tab bytes.
pub open spec fn trim_spec(s: Seq<u8>) -> Seq<u8>
    decreases s.len(),
{
    if s.len() == 0 {
        s
    } else if is_trail_byte(s[s.len() - 1]) {
        trim_spec(s.drop_last())
    } else {
        s
    }
}

/// Exact trailing-junk check for one byte.
fn is_trail(b: u8) -> (r: bool)
    ensures
        r == is_trail_byte(b),
{
    b == 0x00 || b == 0x0A || b == 0x20 || b == 0x09
}

/// Removes trailing NUL, newline, space and tab bytes.
pub fn trim_end(bytes: Vec<u8>) -> (r: Vec<u8>)
    ensures
        r@ == trim_spec(bytes@),
{
    let mut v = bytes;
    let ghost s = v@;
    let mut end = v.len();
    proof {
        assert(s.take(end as int) =~= s);
    }
    while end > 0 && is_trail(v[end - 1])
        invariant
            end <= s.len(),
            v@ == s,
            trim_spec(s) == trim_spec(s.take(end as int)),
        decreases end,
    {
        proof {
            assert(s.take(end as int).drop_last() =~= s.take(end - 1));
        }
        end -= 1;
    }
    proof {
        if end > 0 {
            assert(trim_spec(s.take(end as int)) == s.take(end as int));
        } else {
            assert(s.take(0) =~= Seq::<u8>::empty());
        }
    }
    v.truncate(end);
    v
}

/// Whether `b` is a decimal digit.
pub open spec fn is_dec_digit(b: u8) -> bool {
    0x30 <= b <= 0x39
}

/// The number a string of decimal digits denotes.
pub open spec fn dec_val(s: Seq<u8>) -> int
    decreases s.len(),
{
    if s.len() == 0 {
        0
    } else {
        dec_val(s.drop_last()) * 10 + (s.last() - 0x30)
    }
}

/// What parsing a stored value as an unsigned decimal number yields:
/// defined exactly for non-empty all-digit strings whose value fits.
pub open spec fn parse_u64_spec(s: Seq<u8>) -> Option<u64> {
    if s.len() > 0 && (forall|i: int| 0 <= i < s.len() ==> is_dec_digit(#[trigger] s[i])) && dec_val(
        s,
    ) <= u64::MAX {
        Some(dec_val(s) as u64)
    } else {
        None
    }
}

/// A string of digits denotes a non-negative number.
proof fn lemma_dec_val_nonneg(s: Seq<u8>)
    requires
        forall|i: int| 0 <= i < s.len() ==> is_dec_digit(#[trigger] s[i]),
    ensures
        dec_val(s) >= 0,
    decreases s.len(),
{
    if s.len() > 0 {
        lemma_dec_val_nonneg(s.drop_last());
    }
}

/// Extending a digit string can only grow its value.
proof fn lemma_dec_val_prefix_le(s: Seq<u8>, j: int)
    requires
        0 <= j <= s.len(),
        forall|i: int| 0 <= i < s.len() ==> is_dec_digit(#[trigger] s[i]),
    ensures
        dec_val(s.take(j)) <= dec_val(s),
    decreases s.len() - j,
{
    if j == s.len() {
        assert(s.take(j) =~= s);
    } else {
        lemma_dec_val_prefix_le(s, j + 1);
        assert(s.take(j + 1).drop_last() =~= s.take(j));
        assert forall|i: int| 0 <= i < s.take(j).len() implies is_dec_digit(
            #[trigger] s.take(j)[i],
        ) by {
            assert(s.take(j)[i] == s[i]);
        }
        lemma_dec_val_nonneg(s.take(j));
        assert(dec_val(s.take(j + 1)) == dec_val(s.take(j)) * 10 + (s[j] - 0x30));
        assert(dec_val(s.take(j)) * 10 >= dec_val(s.take(j)));
    }
}

/// Parses a trimmed value as an unsigned decimal number: `Some` exactly
/// for a non-empty string of digits whose value fits in 64 bits.
pub fn parse_u64(bytes: &Vec<u8>) -> (r: Option<u64>)
    ensures
        r == parse_u64_spec(bytes@),
{
    let ghost s = bytes@;
    if bytes.len() == 0 {
        return None;
    }
    let mut acc: u64 = 0;
    let mut i: usize = 0;
    while i < bytes.len()
        invariant
            i <= s.len(),
            s == bytes@,
            s.len() > 0,
            forall|t: int| 0 <= t < i ==> is_dec_digit(#[trigger] s[t]),
            acc == dec_val(s.take(i as int)),
        decreases s.len() - i,
    {
        let b = bytes[i];
        if b < 0x30 || b > 0x39 {
            return None;
        }
        let d = (b - 0x30) as u64;
        if acc > (u64::MAX - d) / 10 {
            proof {
                assert forall|t: int| 0 <= t < s.take(i + 1).len() implies is_dec_digit(
                    #[trigger] s.take(i + 1)[t],
                ) by {
                    assert(s.take(i + 1)[t] == s[t]);
                }
                assert(s.take(i + 1).drop_last() =~= s.take(i as int));
                assert(dec_val(s.take(i + 1)) == acc * 10 + d);
                assert(acc * 10 + d > u64::MAX) by (nonlinear_arith)
                    requires
                        acc > (u64::MAX - d) / 10,
                        d <= 9,
                ;
                if forall|t: int| 0 <= t < s.len() ==> is_dec_digit(#[trigger] s[t]) {
                    lemma_dec_val_prefix_le(s, i + 1);
                }
            }
            return None;
        }
        proof {
            assert(acc * 10 + d <= u64::MAX) by (nonlinear_arith)
                requires
                    acc <= (u64::MAX - d) / 10,
                    d <= 9,
            ;
            assert(s.take(i + 1).drop_last() =~= s.take(i as int));
        }
        acc = acc * 10 + d;
        i += 1;
    }
    proof {
        assert(s.take(i as int) =~= s);
        lemma_dec_val_nonneg(s);
    }
    Some(acc)
}

/// The last known trimmed value of one watched attribute.
pub struct ValBuf {
    cur: Vec<u8>,
}

impl ValBuf {
    /// The stored value.
    pub closed spec fn value(self) -> Seq<u8> {
        self.cur@
    }

    /// A buffer holding the trimmed initial reading.
    pub fn new(bytes: Vec<u8>) -> (r: ValBuf)
        ensures
            r.value() == trim_spec(bytes@),
    {
        ValBuf { cur: trim_end(bytes) }
    }

    /// Whether a new reading differs from the stored value, ignoring
    /// trailing whitespace and newlines of the new reading.
    pub fn changed(&self, bytes: &Vec<u8>) -> (r: bool)
        ensures
            r == (trim_spec(bytes@) != self.value()),
    {
        let t = trim_end(bytes.clone());
        !bytes_eq(&t, &self.cur)
    }

    /// Promotes a new reading to the stored value, trimmed.
    pub fn flip_bufs(&mut self, bytes: Vec<u8>)
        ensures
            final(self).value() == trim_spec(bytes@),
    {
        self.cur = trim_end(bytes);
    }

    /// The stored value's bytes.
    pub fn current(&self) -> (r: &Vec<u8>)
        ensures
            r@ == self.value(),
    {
        &self.cur
    }

    /// The stored value parsed as an unsigned decimal number.
    pub fn get(&self) -> (r: Option<u64>)
        ensures
            r == parse_u64_spec(self.value()),
    {
        parse_u64(&self.cur)
    }
}

/// Ghost image of one watched attribute: its file name and its last
/// known trimmed value.
pub ghost struct AttrView {
    pub name: Seq<char>,
    pub value: Seq<u8>,
}

/// Ghost image of one watched device directory: its name, its watch
/// handle, and its attributes in watch order.
pub ghost struct DevView {
    pub name: Seq<char>,
    pub wd: i32,
    pub attrs: Seq<AttrView>,
}

/// The position of the first device named `name`, scanning from `i`; the
/// sequence length when there is none.
pub open spec fn find_dev(devs: Seq<DevView>, name: Seq<char>, i: int) -> int
    decreases devs.len() - i,
{
    if i < 0 || i >= devs.len() {
        devs.len() as int
    } else if devs[i].name == name {
        i
    } else {
        find_dev(devs, name, i + 1)
    }
}

/// The position of the first device with watch handle `wd`, scanning
/// from `i`; the sequence length when there is none.
pub open spec fn find_wd(devs: Seq<DevView>, wd: i32, i: int) -> int
    decreases devs.len() - i,
{
    if i < 0 || i >= devs.len() {
        devs.len() as int
    } else if devs[i].wd == wd {
        i
    } else {
        find_wd(devs, wd, i + 1)
    }
}

/// The position of the first attribute named `name`, scanning from `i`;
/// the sequence length when there is none.
pub open spec fn find_attr(attrs: Seq<AttrView>, name: Seq<char>, i: int) -> int
    decreases attrs.len() - i,
{
    if i < 0 || i >= attrs.len() {
        attrs.len() as int
    } else if attrs[i].name == name {
        i
    } else {
        find_attr(attrs, name, i + 1)
    }
}

/// Whether some device is named `name`.
pub open spec fn has_device(devs: Seq<DevView>, name: Seq<char>) -> bool {
    find_dev(devs, name, 0) < devs.len()
}

/// The watch handle of the device named `name`.
pub open spec fn wd_of(devs: Seq<DevView>, name: Seq<char>) -> i32 {
    devs[find_dev(devs, name, 0)].wd
}

/// Whether the pair (device name, attribute name) is watched.
pub open spec fn watches(devs: Seq<DevView>, d: Seq<char>, a: Seq<char>) -> bool {
    let i = find_dev(devs, d, 0);
    i < devs.len() && find_attr(devs[i].attrs, a, 0) < devs[i].attrs.len()
}

/// The stored value of the watched pair (device name, attribute name).
pub open spec fn value_of(devs: Seq<DevView>, d: Seq<char>, a: Seq<char>) -> Seq<u8> {
    let i = find_dev(devs, d, 0);
    devs[i].attrs[find_attr(devs[i].attrs, a, 0)].value
}

/// The watcher state after `watch(d, a)`: a new device gets one
/// attribute, a known device gets the attribute added or refreshed; in
/// all cases the pair ends up holding the trimmed initial reading, so no
/// attribute is ever observable in an uninitialized state.
pub open spec fn watch_spec(
    devs: Seq<DevView>,
    d: Seq<char>,
    a: Seq<char>,
    wd: i32,
    init: Seq<u8>,
) -> Seq<DevView> {
    let i = find_dev(devs, d, 0);
    if i == devs.len() {
        devs.push(DevView { name: d, wd, attrs: seq![AttrView { name: a, value: trim_spec(init) }] })
    } else {
        let dev = devs[i];
        let j = find_attr(dev.attrs, a, 0);
        if j == dev.attrs.len() {
            devs.update(
                i,
                DevView {
                    name: dev.name,
                    wd: dev.wd,
                    attrs: dev.attrs.push(AttrView { name: a, value: trim_spec(init) }),
                },
            )
        } else {
            devs.update(
                i,
                DevView {
                    name: dev.name,
                    wd: dev.wd,
                    attrs: dev.attrs.update(j, AttrView { name: a, value: trim_spec(init) }),
                },
            )
        }
    }
}

/// The watcher state after one change notification (watch handle, file
/// name) and the re-read bytes, and whether it counts as a change:
/// notifications that resolve to no watched attribute are dropped; a
/// reading whose trimmed bytes equal the stored value changes nothing;
/// otherwise the trimmed reading is promoted to the stored value.
pub open spec fn step_reading(devs: Seq<DevView>, wd: i32, name: Seq<char>, bytes: Seq<u8>) -> (
    Seq<DevView>,
    bool,
) {
    let i = find_wd(devs, wd, 0);
    if i == devs.len() {
        (devs, false)
    } else {
        let dev = devs[i];
        let j = find_attr(dev.attrs, name, 0);
        if j == dev.attrs.len() {
            (devs, false)
        } else if trim_spec(bytes) == dev.attrs[j].value {
            (devs, false)
        } else {
            (
                devs.update(
                    i,
                    DevView {
                        name: dev.name,
                        wd: dev.wd,
                        attrs: dev.attrs.update(
                            j,
                            AttrView { name: dev.attrs[j].name, value: trim_spec(bytes) },
                        ),
                    },
                ),
                true,
            )
        }
    }
}

/// One re-read reading handed in by the caller: the watch handle the
/// notification carried, the file name it named, and the bytes re-read
/// from that attribute's file.
pub struct Reading {
    pub wd: i32,
    pub name: String,
    pub bytes: Vec<u8>,
}

/// The watcher state after a whole batch of readings, applied in order,
/// and whether any of them changed a stored value.
pub open spec fn run_batch(devs: Seq<DevView>, rs: Seq<Reading>) -> (Seq<DevView>, bool)
    decreases rs.len(),
{
    if rs.len() == 0 {
        (devs, false)
    } else {
        let s1 = step_reading(devs, rs[0].wd, rs[0].name@, rs[0].bytes@);
        let s2 = run_batch(s1.0, rs.drop_first());
        (s2.0, s1.1 || s2.1)
    }
}

/// Exact byte-for-byte comparison.
fn bytes_eq(a: &Vec<u8>, b: &Vec<u8>) -> (r: bool)
    ensures
        r == (a@ == b@),
{
    if a.len() != b.len() {
        return false;
    }
    let mut i: usize = 0;
    while i < a.len()
        invariant
            i <= a@.len(),
            a@.len() == b@.len(),
            forall|t: int| 0 <= t < i ==> a@[t] == b@[t],
        decreases a@.len() - i,
    {
        if a[i] != b[i] {
            return false;
        }
        i += 1;
    }
    proof {
        assert(a@ =~= b@);
    }
    true
}

/// One watched attribute of a device.
struct AttrRec {
    name: String,
    val: ValBuf,
}

/// One watched device directory and its attributes.
struct DeviceRec {
    name: String,
    wd: i32,
    attrs: Vec<AttrRec>,
}

/// The ghost image of one attribute record.
spec fn attr_view(a: AttrRec) -> AttrView {
    AttrView { name: a.name@, value: a.val.value() }
}

/// The ghost image of a device's attribute records.
spec fn attrs_view(s: Seq<AttrRec>) -> Seq<AttrView> {
    s.map_values(|a: AttrRec| attr_view(a))
}

/// The ghost image of one device record.
spec fn dev_view(d: DeviceRec) -> DevView {
    DevView { name: d.name@, wd: d.wd, attrs: attrs_view(d.attrs@) }
}

/// The ghost image of the device records.
spec fn devs_view(s: Seq<DeviceRec>) -> Seq<DevView> {
    s.map_values(|d: DeviceRec| dev_view(d))
}

/// The sysfs attribute watcher: all watched devices with their watched
/// attributes and last known trimmed values.
pub struct Sysfs {
    devices: Vec<DeviceRec>,
}

impl View for Sysfs {
    type V = Seq<DevView>;

    closed spec fn view(&self) -> Seq<DevView> {
        devs_view(self.devices@)
    }
}

proof fn lemma_devs_view_push(s: Seq<DeviceRec>, x: DeviceRec)
    ensures
        devs_view(s.push(x)) == devs_view(s).push(dev_view(x)),
{
    assert(devs_view(s.push(x)) =~= devs_view(s).push(dev_view(x)));
}

proof fn lemma_devs_view_update(s: Seq<DeviceRec>, i: int, x: DeviceRec)
    requires
        0 <= i < s.len(),
    ensures
        devs_view(s.update(i, x)) == devs_view(s).update(i, dev_view(x)),
{
    assert(devs_view(s.update(i, x)) =~= devs_view(s).update(i, dev_view(x)));
}

proof fn lemma_attrs_view_push(s: Seq<AttrRec>, x: AttrRec)
    ensures
        attrs_view(s.push(x)) == attrs_view(s).push(attr_view(x)),
{
    assert(attrs_view(s.push(x)) =~= attrs_view(s).push(attr_view(x)));
}

proof fn lemma_attrs_view_update(s: Seq<AttrRec>, i: int, x: AttrRec)
    requires
        0 <= i < s.len(),
    ensures
        attrs_view(s.update(i, x)) == attrs_view(s).update(i, attr_view(x)),
{
    assert(attrs_view(s.update(i, x)) =~= attrs_view(s).update(i, attr_view(x)));
}

/// Finds an attribute record by name.
fn find_attr_idx(attrs: &Vec<AttrRec>, name: &String) -> (r: usize)
    ensures
        r == find_attr(attrs_view(attrs@), name@, 0),
        r <= attrs@.len(),
{
    let mut j: usize = 0;
    while j < attrs.len()
        invariant
            j <= attrs@.len(),
            find_attr(attrs_view(attrs@), name@, 0) == find_attr(
                attrs_view(attrs@),
                name@,
                j as int,
            ),
        decreases attrs@.len() - j,
    {
        if attrs[j].name.eq(name) {
            assert(attrs_view(attrs@)[j as int].name == name@);
            return j;
        }
        assert(attrs_view(attrs@)[j as int].name == attrs@[j as int].name@);
        j += 1;
    }
    j
}

impl Sysfs {
    /// A watcher with nothing watched yet.
    pub fn new() -> (r: Sysfs)
        ensures
            r@ == Seq::<DevView>::empty(),
    {
        let s = Sysfs { devices: Vec::new() };
        proof {
            assert(s@ =~= Seq::<DevView>::empty());
        }
        s
    }

    /// Finds a device record by name.
    fn find_dev_idx(&self, name: &String) -> (r: usize)
        ensures
            r == find_dev(self@, name@, 0),
            r <= self@.len(),
    {
        let mut i: usize = 0;
        while i < self.devices.len()
            invariant
                i <= self.devices@.len(),
                self@.len() == self.devices@.len(),
                find_dev(self@, name@, 0) == find_dev(self@, name@, i as int),
            decreases self.devices@.len() - i,
        {
            if self.devices[i].name.eq(name) {
                assert(self@[i as int].name == name@);
                return i;
            }
            assert(self@[i as int].name == self.devices@[i as int].name@);
            i += 1;
        }
        i
    }

    /// Finds a device record by watch handle.
    fn find_wd_idx(&self, wd: i32) -> (r: usize)
        ensures
            r == find_wd(self@, wd, 0),
            r <= self@.len(),
    {
        let mut i: usize = 0;
        while i < self.devices.len()
            invariant
                i <= self.devices@.len(),
                self@.len() == self.devices@.len(),
                find_wd(self@, wd, 0) == find_wd(self@, wd, i as int),
            decreases self.devices@.len() - i,
        {
            if self.devices[i].wd == wd {
                assert(self@[i as int].wd == wd);
                return i;
            }
            assert(self@[i as int].wd == self.devices@[i as int].wd);
            i += 1;
        }
        i
    }

    /// The watch handle of a device, if it is already watched; the caller
    /// registers a directory watch only for a device this returns `None`
    /// for.
    pub fn device_wd(&self, device: &str) -> (r: Option<i32>)
        ensures
            match r {
                Some(w) => has_device(self@, device@) && w == wd_of(self@, device@),
                None => !has_device(self@, device@),
            },
    {
        let dname = String::from_str(device);
        let i = self.find_dev_idx(&dname);
        if i < self.devices.len() {
            Some(self.devices[i].wd)
        } else {
            None
        }
    }

    /// Starts (or refreshes) the watch on one (device, attribute) pair.
    /// `wd` is the directory watch handle of the device (ignored when the
    /// device is already known) and `initial` the synchronous initial
    /// reading of the attribute's file, stored trimmed before this
    /// returns.
    pub fn watch(&mut self, device: &str, attr: &str, wd: i32, initial: Vec<u8>)
        ensures
            final(self)@ == watch_spec(old(self)@, device@, attr@, wd, initial@),
    {
        let dname = String::from_str(device);
        let aname = String::from_str(attr);
        let i = self.find_dev_idx(&dname);
        if i == self.devices.len() {
            let mut attrs: Vec<AttrRec> = Vec::new();
            let ghost attrs0 = attrs@;
            attrs.push(AttrRec { name: aname, val: ValBuf::new(initial) });
            let rec = DeviceRec { name: dname, wd, attrs };
            let ghost devs0 = self.devices@;
            self.devices.push(rec);
            proof {
                lemma_devs_view_push(devs0, rec);
                assert(attrs_view(attrs0) =~= Seq::<AttrView>::empty());
                lemma_attrs_view_push(attrs0, AttrRec { name: aname, val: rec.attrs@[0].val });
                assert(dev_view(rec).attrs =~= seq![
                    AttrView { name: attr@, value: trim_spec(initial@) },
                ]);
            }
        } else {
            let j = find_attr_idx(&self.devices[i].attrs, &aname);
            let nb = ValBuf::new(initial);
            let ghost devs0 = self.devices@;
            let ghost dev0 = self.devices@[i as int];
            let ghost attrs0 = self.devices@[i as int].attrs@;
            if j == self.devices[i].attrs.len() {
                self.devices[i].attrs.push(AttrRec { name: aname, val: nb });
            } else {
                self.devices[i].attrs[j] = AttrRec { name: aname, val: nb };
            }
            proof {
                let dev1 = self.devices@[i as int];
                assert(self.devices@ == devs0.update(i as int, dev1));
                lemma_devs_view_update(devs0, i as int, dev1);
                if j == attrs0.len() {
                    lemma_attrs_view_push(attrs0, dev1.attrs@.last());
                    assert(dev1.attrs@ == attrs0.push(dev1.attrs@.last()));
                } else {
                    lemma_attrs_view_update(attrs0, j as int, dev1.attrs@[j as int]);
                    assert(dev1.attrs@ == attrs0.update(j as int, dev1.attrs@[j as int]));
                }
            }
        }
    }

    /// Applies one batch of drained change notifications, each already
    /// paired with the bytes re-read from its attribute's file. Returns
    /// whether any stored value changed. Exactly when this returns true,
    /// the caller must drain the notification queue once more and discard
    /// what it holds: the re-reads above have fired the watches again. A
    /// drain after a batch that changed nothing would instead throw away
    /// genuine pending notifications.
    pub fn update(&mut self, readings: &Vec<Reading>) -> (r: bool)
        ensures
            final(self)@ == run_batch(old(self)@, readings@).0,
            r == run_batch(old(self)@, readings@).1,
    {
        let mut changed = false;
        let mut k: usize = 0;
        proof {
            assert(readings@.skip(0) =~= readings@);
        }
        while k < readings.len()
            invariant
                k <= readings@.len(),
                run_batch(old(self)@, readings@).0 == run_batch(
                    self@,
                    readings@.skip(k as int),
                ).0,
                run_batch(old(self)@, readings@).1 == (changed || run_batch(
                    self@,
                    readings@.skip(k as int),
                ).1),
            decreases readings@.len() - k,
        {
            let ghost pre = self@;
            let rd = &readings[k];
            let i = self.find_wd_idx(rd.wd);
            let mut step_changed = false;
            if i < self.devices.len() {
                let j = find_attr_idx(&self.devices[i].attrs, &rd.name);
                if j < self.devices[i].attrs.len() {
                    if self.devices[i].attrs[j].val.changed(&rd.bytes) {
                        let ghost devs0 = self.devices@;
                        let ghost attrs0 = self.devices@[i as int].attrs@;
                        let nm = self.devices[i].attrs[j].name.clone();
                        self.devices[i].attrs[j] = AttrRec {
                            name: nm,
                            val: ValBuf::new(rd.bytes.clone()),
                        };
                        step_changed = true;
                        proof {
                            let dev1 = self.devices@[i as int];
                            assert(self.devices@ == devs0.update(i as int, dev1));
                            lemma_devs_view_update(devs0, i as int, dev1);
                            lemma_attrs_view_update(attrs0, j as int, dev1.attrs@[j as int]);
                            assert(dev1.attrs@ == attrs0.update(j as int, dev1.attrs@[j as int]));
                            assert(rd.bytes@ == readings@[k as int].bytes@);
                        }
                    }
                }
            }
            proof {
                assert(step_reading(pre, readings@[k as int].wd, readings@[k as int].name@, readings@[k as int].bytes@)
                    == (self@, step_changed));
                assert(readings@.skip(k as int)[0] == readings@[k as int]);
                assert(readings@.skip(k as int).drop_first() =~= readings@.skip(k + 1));
            }
            changed = changed || step_changed;
            k += 1;
        }
        proof {
            assert(readings@.skip(k as int) =~= Seq::<Reading>::empty());
        }
        changed
    }

    /// The stored value of a watched pair, parsed as an unsigned decimal
    /// number. Each failure names its cause: an unknown device, an
    /// unknown attribute of a known device, or a stored value that is not
    /// a number; all three are fatal to the caller.
    pub fn get(&self, device: &str, attr: &str) -> (r: Result<u64, SysfsError>)
        ensures
            match r {
                Ok(v) => watches(self@, device@, attr@) && parse_u64_spec(
                    value_of(self@, device@, attr@),
                ) == Some(v),
                Err(SysfsError::UnknownDevice) => !has_device(self@, device@),
                Err(SysfsError::UnknownAttr) => has_device(self@, device@) && !watches(
                    self@,
                    device@,
                    attr@,
                ),
                Err(SysfsError::BadValue) => watches(self@, device@, attr@) && parse_u64_spec(
                    value_of(self@, device@, attr@),
                ) is None,
            },
    {
        match self.get_raw(device, attr) {
            Ok(bytes) => match parse_u64(bytes) {
                Some(v) => Ok(v),
                None => Err(SysfsError::BadValue),
            },
            Err(e) => Err(e),
        }
    }

    /// The stored value of a watched pair, as bytes: the trimmed content
    /// the attribute's file had when last read.
    pub fn get_raw(&self, device: &str, attr: &str) -> (r: Result<&Vec<u8>, SysfsError>)
        ensures
            match r {
                Ok(bytes) => watches(self@, device@, attr@) && bytes@ == value_of(
                    self@,
                    device@,
                    attr@,
                ),
                Err(SysfsError::UnknownDevice) => !has_device(self@, device@),
                Err(SysfsError::UnknownAttr) => has_device(self@, device@) && !watches(
                    self@,
                    device@,
                    attr@,
                ),
                Err(SysfsError::BadValue) => false,
            },
    {
        let dname = String::from_str(device);
        let aname = String::from_str(attr);
        let i = self.find_dev_idx(&dname);
        if i == self.devices.len() {
            return Err(SysfsError::UnknownDevice);
        }
        let j = find_attr_idx(&self.devices[i].attrs, &aname);
        if j == self.devices[i].attrs.len() {
            return Err(SysfsError::UnknownAttr);
        }
        Ok(self.devices[i].attrs[j].val.current())
    }
}

/// How reading a watched value can fail. All are programmer or
/// configuration errors, fatal to the caller, never transient.
#[derive(Clone, Copy, Debug, PartialEq, Eq, Structural)]
pub enum SysfsError {
    /// The device was never watched.
    UnknownDevice,
    /// The device is watched, but not this attribute.
    UnknownAttr,
    /// The stored text does not parse as the requested type.
    BadValue,
}

/// A device lookup by name lands between its start and the length.
proof fn lemma_find_dev_range(devs: Seq<DevView>, name: Seq<char>, i: int)
    requires
        0 <= i <= devs.len(),
    ensures
        i <= find_dev(devs, name, i) <= devs.len(),
    decreases devs.len() - i,
{
    if i < devs.len() && devs[i].name != name {
        lemma_find_dev_range(devs, name, i + 1);
    }
}

/// A device lookup by handle lands between its start and the length.
proof fn lemma_find_wd_range(devs: Seq<DevView>, wd: i32, i: int)
    requires
        0 <= i <= devs.len(),
    ensures
        i <= find_wd(devs, wd, i) <= devs.len(),
    decreases devs.len() - i,
{
    if i < devs.len() && devs[i].wd != wd {
        lemma_find_wd_range(devs, wd, i + 1);
    }
}

/// An attribute lookup lands between its start and the length.
proof fn lemma_find_attr_range(attrs: Seq<AttrView>, name: Seq<char>, i: int)
    requires
        0 <= i <= attrs.len(),
    ensures
        i <= find_attr(attrs, name, i) <= attrs.len(),
    decreases attrs.len() - i,
{
    if i < attrs.len() && attrs[i].name != name {
        lemma_find_attr_range(attrs, name, i + 1);
    }
}

/// A successful attribute lookup lands on the sought name.
proof fn lemma_find_attr_hit(attrs: Seq<AttrView>, name: Seq<char>, i: int)
    requires
        0 <= i,
    ensures
        find_attr(attrs, name, i) < attrs.len() ==> attrs[find_attr(attrs, name, i)].name == name,
    decreases attrs.len() - i,
{
    if i < attrs.len() && attrs[i].name != name {
        lemma_find_attr_hit(attrs, name, i + 1);
    }
}

/// Handle lookup depends only on the devices' handles.
proof fn lemma_find_wd_stable(a: Seq<DevView>, b: Seq<DevView>, wd: i32, i: int)
    requires
        a.len() == b.len(),
        forall|t: int| 0 <= t < a.len() ==> (#[trigger] a[t]).wd == b[t].wd,
        0 <= i,
    ensures
        find_wd(a, wd, i) == find_wd(b, wd, i),
    decreases a.len() - i,
{
    if i < a.len() {
        lemma_find_wd_stable(a, b, wd, i + 1);
    }
}

/// Device lookup depends only on the devices' names.
proof fn lemma_find_dev_stable(a: Seq<DevView>, b: Seq<DevView>, name: Seq<char>, i: int)
    requires
        a.len() == b.len(),
        forall|t: int| 0 <= t < a.len() ==> (#[trigger] a[t]).name == b[t].name,
        0 <= i,
    ensures
        find_dev(a, name, i) == find_dev(b, name, i),
    decreases a.len() - i,
{
    if i < a.len() {
        lemma_find_dev_stable(a, b, name, i + 1);
    }
}

/// Attribute lookup depends only on the attributes' names.
proof fn lemma_find_attr_stable(a: Seq<AttrView>, b: Seq<AttrView>, name: Seq<char>, i: int)
    requires
        a.len() == b.len(),
        forall|t: int| 0 <= t < a.len() ==> (#[trigger] a[t]).name == b[t].name,
        0 <= i,
    ensures
        find_attr(a, name, i) == find_attr(b, name, i),
    decreases a.len() - i,
{
    if i < a.len() {
        lemma_find_attr_stable(a, b, name, i + 1);
    }
}

/// Looking a name up after appending one device: a hit in the old
/// sequence wins; otherwise the appended device is found exactly when it
/// carries the name.
proof fn lemma_find_dev_push(devs: Seq<DevView>, x: DevView, name: Seq<char>, i: int)
    requires
        0 <= i <= devs.len(),
    ensures
        find_dev(devs.push(x), name, i) == (if find_dev(devs, name, i) < devs.len() {
            find_dev(devs, name, i)
        } else if x.name == name {
            devs.len() as int
        } else {
            devs.len() as int + 1
        }),
    decreases devs.len() - i,
{
    if i == devs.len() {
        assert(devs.push(x)[i] == x);
        assert(find_dev(devs, name, i) == devs.len());
        if x.name == name {
            assert(find_dev(devs.push(x), name, i) == i);
        } else {
            assert(find_dev(devs.push(x), name, i) == find_dev(devs.push(x), name, i + 1));
            assert(find_dev(devs.push(x), name, i + 1) == devs.len() as int + 1);
        }
    } else {
        assert(devs.push(x)[i] == devs[i]);
        lemma_find_dev_push(devs, x, name, i + 1);
        if devs[i].name == name {
            assert(find_dev(devs, name, i) == i);
            assert(find_dev(devs.push(x), name, i) == i);
        } else {
            assert(find_dev(devs, name, i) == find_dev(devs, name, i + 1));
            assert(find_dev(devs.push(x), name, i) == find_dev(devs.push(x), name, i + 1));
            lemma_find_dev_range(devs, name, i + 1);
        }
    }
}

/// Looking a name up after appending one attribute, likewise.
proof fn lemma_find_attr_push(attrs: Seq<AttrView>, x: AttrView, name: Seq<char>, i: int)
    requires
        0 <= i <= attrs.len(),
    ensures
        find_attr(attrs.push(x), name, i) == (if find_attr(attrs, name, i) < attrs.len() {
            find_attr(attrs, name, i)
        } else if x.name == name {
            attrs.len() as int
        } else {
            attrs.len() as int + 1
        }),
    decreases attrs.len() - i,
{
    if i == attrs.len() {
        assert(attrs.push(x)[i] == x);
        assert(find_attr(attrs, name, i) == attrs.len());
        if x.name == name {
            assert(find_attr(attrs.push(x), name, i) == i);
        } else {
            assert(find_attr(attrs.push(x), name, i) == find_attr(attrs.push(x), name, i + 1));
            assert(find_attr(attrs.push(x), name, i + 1) == attrs.len() as int + 1);
        }
    } else {
        assert(attrs.push(x)[i] == attrs[i]);
        lemma_find_attr_push(attrs, x, name, i + 1);
        if attrs[i].name == name {
            assert(find_attr(attrs, name, i) == i);
            assert(find_attr(attrs.push(x), name, i) == i);
        } else {
            assert(find_attr(attrs, name, i) == find_attr(attrs, name, i + 1));
            assert(find_attr(attrs.push(x), name, i) == find_attr(attrs.push(x), name, i + 1));
            lemma_find_attr_range(attrs, name, i + 1);
        }
    }
}

/// A watch immediately followed by a read never yields a default or
/// uninitialized value: after `watch(d, a)` with initial reading `init`,
/// the pair (d, a) is watched and its stored value is exactly the
/// trimmed initial reading — the real on-disk content at watch time.
pub proof fn lemma_watch_then_get(
    devs: Seq<DevView>,
    d: Seq<char>,
    a: Seq<char>,
    wd: i32,
    init: Seq<u8>,
)
    ensures
        watches(watch_spec(devs, d, a, wd, init), d, a),
        value_of(watch_spec(devs, d, a, wd, init), d, a) == trim_spec(init),
{
    let w = watch_spec(devs, d, a, wd, init);
    let i = find_dev(devs, d, 0);
    lemma_find_dev_range(devs, d, 0);
    if i == devs.len() {
        let x = DevView { name: d, wd, attrs: seq![AttrView { name: a, value: trim_spec(init) }] };
        lemma_find_dev_push(devs, x, d, 0);
        assert(find_dev(w, d, 0) == devs.len());
        assert(w[devs.len() as int] == x);
        assert(find_attr(x.attrs, a, 0) == 0);
    } else {
        let dev = devs[i];
        let j = find_attr(dev.attrs, a, 0);
        lemma_find_attr_range(dev.attrs, a, 0);
        let nat_j = if j == dev.attrs.len() {
            dev.attrs.push(AttrView { name: a, value: trim_spec(init) })
        } else {
            dev.attrs.update(j, AttrView { name: a, value: trim_spec(init) })
        };
        let dv = DevView { name: dev.name, wd: dev.wd, attrs: nat_j };
        assert(w == devs.update(i, dv));
        assert forall|t: int| 0 <= t < devs.len() implies (#[trigger] devs[t]).name
            == w[t].name by {
            if t != i {
                assert(w[t] == devs[t]);
            } else {
                assert(w[t] == dv);
            }
        }
        lemma_find_dev_stable(devs, w, d, 0);
        assert(w[i] == dv);
        if j == dev.attrs.len() {
            lemma_find_attr_push(dev.attrs, AttrView { name: a, value: trim_spec(init) }, a, 0);
            assert(dv.attrs[j] == AttrView { name: a, value: trim_spec(init) });
        } else {
            lemma_find_attr_hit(dev.attrs, a, 0);
            assert forall|t: int| 0 <= t < dev.attrs.len() implies (#[trigger] dev.attrs[t]).name
                == dv.attrs[t].name by {
                if t != j {
                    assert(dv.attrs[t] == dev.attrs[t]);
                } else {
                    assert(dv.attrs[t] == AttrView { name: a, value: trim_spec(init) });
                }
            }
            lemma_find_attr_stable(dev.attrs, dv.attrs, a, 0);
            assert(dv.attrs[j] == AttrView { name: a, value: trim_spec(init) });
        }
    }
}

/// A change is reported exactly once per distinct content change: once a
/// reading has been applied, applying the same reading again reports no
/// change and leaves the state as it was.
pub proof fn lemma_change_reported_once(
    devs: Seq<DevView>,
    wd: i32,
    name: Seq<char>,
    bytes: Seq<u8>,
)
    ensures
        step_reading(step_reading(devs, wd, name, bytes).0, wd, name, bytes) == (
            step_reading(devs, wd, name, bytes).0,
            false,
        ),
{
    let s1 = step_reading(devs, wd, name, bytes).0;
    let i = find_wd(devs, wd, 0);
    lemma_find_wd_range(devs, wd, 0);
    if i < devs.len() {
        let dev = devs[i];
        let j = find_attr(dev.attrs, name, 0);
        lemma_find_attr_range(dev.attrs, name, 0);
        if j < dev.attrs.len() && trim_spec(bytes) != dev.attrs[j].value {
            let na = dev.attrs.update(j, AttrView { name: dev.attrs[j].name, value: trim_spec(bytes) });
            let dv = DevView { name: dev.name, wd: dev.wd, attrs: na };
            assert(s1 == devs.update(i, dv));
            assert forall|t: int| 0 <= t < devs.len() implies (#[trigger] devs[t]).wd
                == s1[t].wd by {
                if t != i {
                    assert(s1[t] == devs[t]);
                } else {
                    assert(s1[t] == dv);
                }
            }
            lemma_find_wd_stable(devs, s1, wd, 0);
            assert(s1[i] == dv);
            assert forall|t: int| 0 <= t < dev.attrs.len() implies (#[trigger] dev.attrs[t]).name
                == na[t].name by {
                if t != j {
                    assert(na[t] == dev.attrs[t]);
                } else {
                    assert(na[t] == AttrView { name: dev.attrs[j].name, value: trim_spec(bytes) });
                }
            }
            lemma_find_attr_stable(dev.attrs, na, name, 0);
            assert(na[j].value == trim_spec(bytes));
        }
    }
}

} // verus!
