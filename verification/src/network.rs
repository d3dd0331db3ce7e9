//! Network monitor state: applies decoded address-change events to the
//! interface inventory and keeps an aggregate wired/wireless/off summary.
//!
//! The consistency rule of the event consumer: an address-added event
//! unconditionally sets the interface's stored address; an
//! address-removed event must carry the address currently stored for its
//! index — a mismatch means the monitor's view has desynchronized from
//! the kernel and is fatal, never silently corrected. Events for indices
//! not present in the inventory (filtered out at enumeration time) are
//! silently dropped.

use vstd::prelude::*;
use crate::interface::Class;
use crate::interface::Interface;
use crate::netlink::IPADD;
use crate::netlink::IPRMV;
use crate::netlink::IfModMsg;

verus! {

/// How applying a batch of events can fail. Both conditions are fatal to
/// the caller: the monitor has no partial-failure semantics.
#[derive(Clone, Copy, Debug, PartialEq, Eq, Structural)]
pub enum NetError {
    /// An address-removed event carried an address other than the one
    /// stored for its interface.
    Desync,
    /// An event carried an operation other than address-added or
    /// address-removed.
    InvalidOp(u8),
}

/// Aggregate connection summary: a wired bit and a wireless bit.
#[derive(Clone, Copy, Debug, PartialEq, Eq, Structural)]
pub struct ConnStat {
    bitmap: u8,
}

impl ConnStat {
    #[verifier::type_invariant]
    spec fn inv(self) -> bool {
        self.bitmap < 4
    }

    /// Whether the wired bit is set.
    pub closed spec fn wired(self) -> bool {
        self.bitmap & 0b01 != 0
    }

    /// Whether the wireless bit is set.
    pub closed spec fn wireless(self) -> bool {
        self.bitmap & 0b10 != 0
    }

    /// A summary with neither bit set.
    pub fn new() -> (r: ConnStat)
        ensures
            !r.wired(),
            !r.wireless(),
    {
        proof {
            assert(0u8 & 0b01 == 0 && 0u8 & 0b10 == 0) by (bit_vector);
        }
        ConnStat { bitmap: 0 }
    }

    /// Clears both bits.
    pub fn reset(&mut self)
        ensures
            !final(self).wired(),
            !final(self).wireless(),
    {
        proof {
            assert(0u8 & 0b01 == 0 && 0u8 & 0b10 == 0) by (bit_vector);
        }
        self.bitmap = 0;
    }

    /// Sets the wired bit; the wireless bit is untouched.
    pub fn set_wired(&mut self)
        ensures
            final(self).wired(),
            final(self).wireless() == old(self).wireless(),
    {
        proof {
            let b = self.bitmap;
            assert((b | 0b01) & 0b01 != 0 && ((b | 0b01) & 0b10) == (b & 0b10) && (b < 4 ==> (b
                | 0b01) < 4)) by (bit_vector);
            use_type_invariant(&*self);
        }
        self.bitmap = self.bitmap | 0b01;
    }

    /// Sets the wireless bit; the wired bit is untouched.
    pub fn set_wireless(&mut self)
        ensures
            final(self).wireless(),
            final(self).wired() == old(self).wired(),
    {
        proof {
            let b = self.bitmap;
            assert((b | 0b10) & 0b10 != 0 && ((b | 0b10) & 0b01) == (b & 0b01) && (b < 4 ==> (b
                | 0b10) < 4)) by (bit_vector);
            use_type_invariant(&*self);
        }
        self.bitmap = self.bitmap | 0b10;
    }

    /// Whether the wired bit is set.
    pub fn is_wired(&self) -> (r: bool)
        ensures
            r == self.wired(),
    {
        self.bitmap & 0b01 != 0
    }

    /// Whether the wireless bit is set.
    pub fn is_wireless(&self) -> (r: bool)
        ensures
            r == self.wireless(),
    {
        self.bitmap & 0b10 != 0
    }

    /// Whether neither bit is set.
    pub fn is_off(&self) -> (r: bool)
        ensures
            r == (!self.wired() && !self.wireless()),
    {
        proof {
            use_type_invariant(&*self);
            let b = self.bitmap;
            assert((b == 0) == (b & 0b01 == 0 && b & 0b10 == 0)) by (bit_vector)
                requires
                    b < 4,
            ;
        }
        self.bitmap == 0
    }
}

/// The position of the first interface whose index equals `devidx`,
/// scanning from `i`; the sequence length when there is none.
pub open spec fn find_from(ifs: Seq<Interface>, devidx: u32, i: int) -> int
    decreases ifs.len() - i,
{
    if i < 0 || i >= ifs.len() {
        ifs.len() as int
    } else if ifs[i].index as int == devidx as int {
        i
    } else {
        find_from(ifs, devidx, i + 1)
    }
}

/// The inventory after one event: events for untracked indices are
/// dropped, an add sets the stored address, a matching remove clears it,
/// a mismatched remove or an unknown operation is an error.
pub open spec fn apply_one(ifs: Seq<Interface>, m: IfModMsg) -> Result<Seq<Interface>, NetError> {
    let t = find_from(ifs, m.devidx, 0);
    if t == ifs.len() {
        Ok(ifs)
    } else if m.modop == IPADD {
        Ok(ifs.update(t, Interface { index: ifs[t].index, ipv4: m.ipv4, class: ifs[t].class }))
    } else if m.modop == IPRMV {
        if ifs[t].ipv4 == m.ipv4 {
            Ok(ifs.update(t, Interface { index: ifs[t].index, ipv4: 0, class: ifs[t].class }))
        } else {
            Err(NetError::Desync)
        }
    } else {
        Err(NetError::InvalidOp(m.modop))
    }
}

/// The inventory after a whole batch of events, applied in order; the
/// first failing event decides the error.
pub open spec fn apply_msgs_spec(ifs: Seq<Interface>, ms: Seq<IfModMsg>) -> Result<
    Seq<Interface>,
    NetError,
>
    decreases ms.len(),
{
    if ms.len() == 0 {
        Ok(ifs)
    } else {
        match apply_one(ifs, ms[0]) {
            Ok(s1) => apply_msgs_spec(s1, ms.drop_first()),
            Err(e) => Err(e),
        }
    }
}

/// Whether some wired interface is running.
pub open spec fn stat_wired(ifs: Seq<Interface>) -> bool {
    exists|k: int| 0 <= k < ifs.len() && (#[trigger] ifs[k]).class == Class::Eth && ifs[k].ipv4 != 0
}

/// Whether some wireless interface is running.
pub open spec fn stat_wireless(ifs: Seq<Interface>) -> bool {
    exists|k: int|
        0 <= k < ifs.len() && (#[trigger] ifs[k]).class == Class::Wlan && ifs[k].ipv4 != 0
}

/// The network monitor's state: the interface inventory (built once at
/// startup) and the aggregate connection summary derived from it.
pub struct Network {
    ifaces: Vec<Interface>,
    conn_stat: ConnStat,
}

impl Network {
    /// The tracked interfaces.
    pub closed spec fn interfaces(self) -> Seq<Interface> {
        self.ifaces@
    }

    /// The aggregate summary.
    pub closed spec fn conn(self) -> ConnStat {
        self.conn_stat
    }

    /// A monitor over the enumerated inventory, its summary already
    /// derived.
    pub fn new(ifaces: Vec<Interface>) -> (r: Network)
        ensures
            r.interfaces() == ifaces@,
            r.conn().wired() == stat_wired(ifaces@),
            r.conn().wireless() == stat_wireless(ifaces@),
    {
        let mut net = Network { ifaces, conn_stat: ConnStat::new() };
        net.update_conn_stat();
        net
    }

    /// The tracked interfaces, in enumeration order.
    pub fn ifaces(&self) -> (r: &Vec<Interface>)
        ensures
            r@ == self.interfaces(),
    {
        &self.ifaces
    }

    /// The current aggregate summary.
    pub fn status(&self) -> (r: ConnStat)
        ensures
            r == self.conn(),
    {
        self.conn_stat
    }

    /// The position of the first tracked interface with index `devidx`,
    /// or the inventory length when no interface matches.
    fn find_iface(&self, devidx: u32) -> (r: usize)
        ensures
            r == find_from(self.interfaces(), devidx, 0),
            r <= self.interfaces().len(),
    {
        let mut i: usize = 0;
        while i < self.ifaces.len()
            invariant
                i <= self.ifaces@.len(),
                find_from(self.ifaces@, devidx, 0) == find_from(self.ifaces@, devidx, i as int),
            decreases self.ifaces@.len() - i,
        {
            if self.ifaces[i].index as i64 == devidx as i64 {
                return i;
            }
            i += 1;
        }
        i
    }

    /// Recomputes the summary from the inventory: the wired bit is set
    /// exactly when some wired interface is running, the wireless bit
    /// exactly when some wireless interface is. Returns whether the
    /// summary differs from the one before the call.
    pub fn update_conn_stat(&mut self) -> (r: bool)
        ensures
            final(self).interfaces() == old(self).interfaces(),
            final(self).conn().wired() == stat_wired(old(self).interfaces()),
            final(self).conn().wireless() == stat_wireless(old(self).interfaces()),
            r == (final(self).conn() != old(self).conn()),
    {
        let prev = self.conn_stat;
        self.conn_stat.reset();
        let mut k: usize = 0;
        while k < self.ifaces.len()
            invariant
                k <= self.ifaces@.len(),
                self.ifaces@ == old(self).interfaces(),
                self.conn_stat.wired() == exists|t: int|
                    0 <= t < k && (#[trigger] self.ifaces@[t]).class == Class::Eth
                        && self.ifaces@[t].ipv4 != 0,
                self.conn_stat.wireless() == exists|t: int|
                    0 <= t < k && (#[trigger] self.ifaces@[t]).class == Class::Wlan
                        && self.ifaces@[t].ipv4 != 0,
            decreases self.ifaces@.len() - k,
        {
            let iface = self.ifaces[k];
            if iface.class == Class::Eth {
                if iface.is_running() {
                    self.conn_stat.set_wired();
                }
            } else {
                if iface.is_running() {
                    self.conn_stat.set_wireless();
                }
            }
            k += 1;
        }
        prev.bitmap != self.conn_stat.bitmap
    }

    /// Applies one batch of decoded events. An empty batch means "no data
    /// yet" and leaves the state untouched. Otherwise the events are
    /// applied in order and the summary is recomputed; the result says
    /// whether the summary changed. A mismatched remove or an unknown
    /// operation is an error: the failing event is not applied (earlier
    /// events of the batch are), and the summary is left as it was.
    pub fn update(&mut self, msgs: &Vec<IfModMsg>) -> (r: Result<bool, NetError>)
        ensures
            msgs@.len() == 0 ==> r == Ok::<bool, NetError>(false) && *final(self) == *old(self),
            match r {
                Ok(_) => apply_msgs_spec(old(self).interfaces(), msgs@) == Ok::<
                    Seq<Interface>,
                    NetError,
                >(final(self).interfaces()),
                Err(e) => apply_msgs_spec(old(self).interfaces(), msgs@) == Err::<
                    Seq<Interface>,
                    NetError,
                >(e),
            },
            r matches Ok(changed) ==> msgs@.len() > 0 ==> final(self).conn().wired() == stat_wired(
                final(self).interfaces(),
            ) && final(self).conn().wireless() == stat_wireless(final(self).interfaces())
                && changed == (final(self).conn() != old(self).conn()),
            r matches Err(_) ==> final(self).conn() == old(self).conn() && exists|k: int|
                0 <= k < msgs@.len() && apply_msgs_spec(old(self).interfaces(), #[trigger] msgs@.take(k))
                    == Ok::<Seq<Interface>, NetError>(final(self).interfaces()) && apply_one(
                    final(self).interfaces(),
                    msgs@[k],
                ) == apply_msgs_spec(old(self).interfaces(), msgs@),
    {
        if msgs.len() == 0 {
            return Ok(false);
        }
        let ghost ifs0 = self.ifaces@;
        let mut j: usize = 0;
        while j < msgs.len()
            invariant
                j <= msgs@.len(),
                apply_msgs_spec(ifs0, msgs@.take(j as int)) == Ok::<Seq<Interface>, NetError>(
                    self.ifaces@,
                ),
                self.conn_stat == old(self).conn(),
                ifs0 == old(self).interfaces(),
                msgs@.len() > 0,
            decreases msgs@.len() - j,
        {
            let m = msgs[j];
            let ghost pre = self.ifaces@;
            let t = self.find_iface(m.devidx);
            let mut failed: Option<NetError> = None;
            if t < self.ifaces.len() {
                if m.modop == IPADD {
                    self.ifaces[t].ipv4 = m.ipv4;
                } else if m.modop == IPRMV {
                    if self.ifaces[t].ipv4 != m.ipv4 {
                        failed = Some(NetError::Desync);
                    } else {
                        self.ifaces[t].ipv4 = 0;
                    }
                } else {
                    failed = Some(NetError::InvalidOp(m.modop));
                }
            }
            match failed {
                Some(e) => {
                    proof {
                        assert(self.ifaces@ == pre);
                        assert(apply_one(pre, msgs@[j as int]) == Err::<Seq<Interface>, NetError>(
                            e,
                        ));
                        lemma_apply_prefix_err(ifs0, msgs@, j as int, pre, e);
                    }
                    return Err(e);
                },
                None => {
                    proof {
                        assert(apply_one(pre, msgs@[j as int]) == Ok::<Seq<Interface>, NetError>(
                            self.ifaces@,
                        ));
                        lemma_apply_snoc(ifs0, msgs@, j as int);
                    }
                },
            }
            j += 1;
        }
        proof {
            assert(msgs@.take(msgs@.len() as int) =~= msgs@);
        }
        let changed = self.update_conn_stat();
        Ok(changed)
    }
}

/// A batch prefix extended by one event: the whole prefix outcome is the
/// one event applied to the shorter prefix's outcome.
proof fn lemma_apply_snoc(ifs: Seq<Interface>, ms: Seq<IfModMsg>, j: int)
    requires
        0 <= j < ms.len(),
    ensures
        apply_msgs_spec(ifs, ms.take(j + 1)) == (match apply_msgs_spec(ifs, ms.take(j)) {
            Ok(s) => apply_one(s, ms[j]),
            Err(e) => Err(e),
        }),
    decreases j,
{
    if j == 0 {
        assert(ms.take(0) =~= Seq::<IfModMsg>::empty());
        assert(apply_msgs_spec(ifs, ms.take(0)) == Ok::<Seq<Interface>, NetError>(ifs));
        let t1 = ms.take(1);
        assert(t1[0] == ms[0]);
        assert(t1.drop_first() =~= Seq::<IfModMsg>::empty());
        match apply_one(ifs, ms[0]) {
            Ok(s1) => {
                assert(apply_msgs_spec(ifs, t1) == apply_msgs_spec(s1, t1.drop_first()));
                assert(apply_msgs_spec(s1, t1.drop_first()) == Ok::<Seq<Interface>, NetError>(s1));
            },
            Err(e) => {
                assert(apply_msgs_spec(ifs, t1) == Err::<Seq<Interface>, NetError>(e));
            },
        }
    } else {
        let tj1 = ms.take(j + 1);
        let tj = ms.take(j);
        assert(tj1[0] == ms[0]);
        assert(tj[0] == ms[0]);
        assert(tj1.drop_first() =~= ms.drop_first().take(j));
        assert(tj.drop_first() =~= ms.drop_first().take(j - 1));
        match apply_one(ifs, ms[0]) {
            Ok(s1) => {
                lemma_apply_snoc(s1, ms.drop_first(), j - 1);
                assert(apply_msgs_spec(ifs, tj1) == apply_msgs_spec(s1, ms.drop_first().take(j)));
                assert(apply_msgs_spec(ifs, tj) == apply_msgs_spec(s1, ms.drop_first().take(j - 1)));
                assert(ms.drop_first()[j - 1] == ms[j]);
            },
            Err(e) => {
                assert(apply_msgs_spec(ifs, tj1) == Err::<Seq<Interface>, NetError>(e));
                assert(apply_msgs_spec(ifs, tj) == Err::<Seq<Interface>, NetError>(e));
            },
        }
    }
}

/// When event `j` fails on the state the first `j` events produced, the
/// whole batch fails with that event's error.
proof fn lemma_apply_prefix_err(
    ifs: Seq<Interface>,
    ms: Seq<IfModMsg>,
    j: int,
    cur: Seq<Interface>,
    e: NetError,
)
    requires
        0 <= j < ms.len(),
        apply_msgs_spec(ifs, ms.take(j)) == Ok::<Seq<Interface>, NetError>(cur),
        apply_one(cur, ms[j]) == Err::<Seq<Interface>, NetError>(e),
    ensures
        apply_msgs_spec(ifs, ms) == Err::<Seq<Interface>, NetError>(e),
        apply_one(cur, ms[j]) == apply_msgs_spec(ifs, ms),
    decreases ms.len() - j,
{
    lemma_apply_snoc(ifs, ms, j);
    lemma_apply_err_extends(ifs, ms, j + 1, e);
}

/// The stored address that a sequence of events leaves for the interface
/// with index `devidx`, starting from `cur`: an add for that index sets
/// the carried address, a remove for it clears the value, events for
/// other indices leave it alone — so the final value is the address of
/// the most recent add, 0 after a remove, or `cur` when no event touched
/// the index.
pub open spec fn tracked_value(ms: Seq<IfModMsg>, devidx: u32, cur: u32) -> u32
    decreases ms.len(),
{
    if ms.len() == 0 {
        cur
    } else {
        let step = if ms[0].devidx == devidx && ms[0].modop == IPADD {
            ms[0].ipv4
        } else if ms[0].devidx == devidx && ms[0].modop == IPRMV {
            0u32
        } else {
            cur
        };
        tracked_value(ms.drop_first(), devidx, step)
    }
}

/// Applying one event never changes the inventory's length, nor any
/// interface's index or class: only stored addresses move.
pub proof fn lemma_apply_one_preserves(ifs: Seq<Interface>, m: IfModMsg)
    ensures
        apply_one(ifs, m) matches Ok(ifs1) ==> ifs1.len() == ifs.len() && forall|i: int|
            0 <= i < ifs.len() ==> (#[trigger] ifs1[i]).index == ifs[i].index && ifs1[i].class
                == ifs[i].class,
{
    let t = find_from(ifs, m.devidx, 0);
    lemma_find_range(ifs, m.devidx, 0);
    match apply_one(ifs, m) {
        Ok(ifs1) => {
            if t == ifs.len() {
                assert(ifs1 == ifs);
            } else {
                let nv = if m.modop == IPADD {
                    Interface { index: ifs[t].index, ipv4: m.ipv4, class: ifs[t].class }
                } else {
                    Interface { index: ifs[t].index, ipv4: 0, class: ifs[t].class }
                };
                assert(ifs1 == ifs.update(t, nv));
                assert forall|i: int| 0 <= i < ifs.len() implies (#[trigger] ifs1[i]).index
                    == ifs[i].index && ifs1[i].class == ifs[i].class by {
                    if i != t {
                        assert(ifs.update(t, nv)[i] == ifs[i]);
                    } else {
                        assert(ifs.update(t, nv)[i] == nv);
                    }
                }
            }
        },
        Err(_) => {},
    }
}

/// A lookup lands between its starting point and the sequence length.
proof fn lemma_find_range(ifs: Seq<Interface>, d: u32, i: int)
    requires
        0 <= i <= ifs.len(),
    ensures
        i <= find_from(ifs, d, i) <= ifs.len(),
    decreases ifs.len() - i,
{
    if i < ifs.len() && !(ifs[i].index as int == d as int) {
        lemma_find_range(ifs, d, i + 1);
    }
}

/// Index lookup depends only on the interfaces' index fields.
proof fn lemma_find_same(a: Seq<Interface>, b: Seq<Interface>, d: u32, i: int)
    requires
        a.len() == b.len(),
        forall|t: int| 0 <= t < a.len() ==> (#[trigger] a[t]).index == b[t].index,
        0 <= i,
    ensures
        find_from(a, d, i) == find_from(b, d, i),
    decreases a.len() - i,
{
    if i < a.len() {
        lemma_find_same(a, b, d, i + 1);
    }
}

/// A successful lookup lands on an interface with the sought index.
proof fn lemma_find_hit(ifs: Seq<Interface>, d: u32, i: int)
    requires
        0 <= i,
    ensures
        find_from(ifs, d, i) < ifs.len() ==> ifs[find_from(ifs, d, i)].index as int == d as int,
    decreases ifs.len() - i,
{
    if i < ifs.len() && !(ifs[i].index as int == d as int) {
        lemma_find_hit(ifs, d, i + 1);
    }
}

/// For any batch of well-typed events that applies without error, the
/// interface at position `p` — the one that lookups for index `d` find —
/// ends with exactly the address the events dictate: that of the most
/// recent add for `d`, 0 after a matching remove, or its starting
/// address when no event targeted `d`.
pub proof fn lemma_ipv4_tracks_events(ifs: Seq<Interface>, ms: Seq<IfModMsg>, d: u32, p: int)
    requires
        0 <= p < ifs.len(),
        find_from(ifs, d, 0) == p,
    ensures
        apply_msgs_spec(ifs, ms) matches Ok(ifs2) ==> p < ifs2.len() && ifs2[p].ipv4
            == tracked_value(ms, d, ifs[p].ipv4),
    decreases ms.len(),
{
    if ms.len() == 0 {
    } else {
        let m = ms[0];
        match apply_one(ifs, m) {
            Ok(s1) => {
                lemma_apply_one_preserves(ifs, m);
                lemma_find_same(ifs, s1, d, 0);
                lemma_ipv4_tracks_events(s1, ms.drop_first(), d, p);
                let t = find_from(ifs, m.devidx, 0);
                lemma_find_range(ifs, m.devidx, 0);
                if m.devidx == d {
                    assert(t == p);
                } else {
                    if t == ifs.len() {
                        assert(s1 == ifs);
                    } else {
                        lemma_find_hit(ifs, m.devidx, 0);
                        lemma_find_hit(ifs, d, 0);
                        assert(t != p);
                        let nv = if m.modop == IPADD {
                            Interface { index: ifs[t].index, ipv4: m.ipv4, class: ifs[t].class }
                        } else {
                            Interface { index: ifs[t].index, ipv4: 0, class: ifs[t].class }
                        };
                        assert(s1 == ifs.update(t, nv));
                        assert(ifs.update(t, nv)[p] == ifs[p]);
                    }
                }
            },
            Err(_) => {},
        }
    }
}

/// A remove event that carries an address other than the one stored for
/// its (tracked) interface is an error — a desynchronization from the
/// kernel — and is never silently corrected.
pub proof fn lemma_remove_mismatch_fatal(ifs: Seq<Interface>, m: IfModMsg)
    requires
        m.modop == IPRMV,
        find_from(ifs, m.devidx, 0) < ifs.len(),
        ifs[find_from(ifs, m.devidx, 0)].ipv4 != m.ipv4,
    ensures
        apply_one(ifs, m) == Err::<Seq<Interface>, NetError>(NetError::Desync),
{
}

/// Once a prefix of the batch fails, the whole batch fails the same way.
proof fn lemma_apply_err_extends(ifs: Seq<Interface>, ms: Seq<IfModMsg>, k: int, e: NetError)
    requires
        0 <= k <= ms.len(),
        apply_msgs_spec(ifs, ms.take(k)) == Err::<Seq<Interface>, NetError>(e),
    ensures
        apply_msgs_spec(ifs, ms) == Err::<Seq<Interface>, NetError>(e),
    decreases k,
{
    if k == 0 {
        assert(ms.take(0) =~= Seq::<IfModMsg>::empty());
        assert(false);
    } else {
        assert(ms.take(k)[0] == ms[0]);
        match apply_one(ifs, ms[0]) {
            Ok(s1) => {
                assert(ms.take(k).drop_first() =~= ms.drop_first().take(k - 1));
                lemma_apply_err_extends(s1, ms.drop_first(), k - 1, e);
            },
            Err(_) => {},
        }
    }
}

} // verus!
