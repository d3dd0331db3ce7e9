//! Network interface inventory.
//!
//! The OS address table yields one entry per address family per
//! interface; `list` filters out entries flagged loopback or no-ARP,
//! de-duplicates the rest by name, and turns each remaining probe into an
//! `Interface` record. The caller performs the enumeration call and the
//! per-interface queries (index, wireless capability, current IPv4) and
//! hands their plain outcomes in as a `Probe`; enumeration failure itself
//! is fatal at the caller, since without an interface list there is
//! nothing meaningful to show.

use vstd::prelude::*;

verus! {

/// Loopback interface flag.
pub const IFF_LOOPBACK: u32 = 0x8;

/// No-ARP interface flag.
pub const IFF_NOARP: u32 = 0x80;

/// Wired or wireless; there is no third class.
#[derive(Clone, Copy, Debug, PartialEq, Eq, Structural)]
pub enum Class {
    Eth,
    Wlan,
}

/// One tracked network interface. `index` is OS-assigned and stable for
/// the process lifetime, `class` fixed at creation; `ipv4` is 0 when the
/// interface has no address (not running), else its 32-bit address.
#[derive(Clone, Copy, Debug, PartialEq, Eq, Structural)]
pub struct Interface {
    pub index: i32,
    pub ipv4: u32,
    pub class: Class,
}

/// The plain outcomes of probing one entry of the OS address table:
/// its name and flags, and the answers of the three per-interface
/// queries (index, wireless-capability, current IPv4; 0 when absent).
#[derive(Clone, Debug)]
pub struct Probe {
    pub name: String,
    pub flags: u32,
    pub index: i32,
    pub wireless: bool,
    pub ipv4: u32,
}

/// Whether an entry with these flags belongs in the inventory: neither
/// the loopback nor the no-ARP flag may be set.
pub open spec fn can_display_spec(flags: u32) -> bool {
    (IFF_LOOPBACK | IFF_NOARP) & flags == 0
}

/// The class an interface gets from the outcome of the
/// wireless-capability query: success means wireless, failure wired.
pub open spec fn class_of(wireless: bool) -> Class {
    if wireless {
        Class::Wlan
    } else {
        Class::Eth
    }
}

/// The interface record a probe yields.
pub open spec fn iface_of(p: Probe) -> Interface {
    Interface { index: p.index, ipv4: p.ipv4, class: class_of(p.wireless) }
}

/// The interfaces of the probes from position `i` on, skipping entries
/// that may not be displayed and entries whose name was already seen.
pub open spec fn list_rec(ps: Seq<Probe>, i: int, seen: Set<Seq<char>>) -> Seq<Interface>
    decreases ps.len() - i,
{
    if i < 0 || i >= ps.len() {
        Seq::empty()
    } else if can_display_spec(ps[i].flags) && !seen.contains(ps[i].name@) {
        seq![iface_of(ps[i])] + list_rec(ps, i + 1, seen.insert(ps[i].name@))
    } else {
        list_rec(ps, i + 1, seen)
    }
}

/// The inventory that a sequence of probes yields.
pub open spec fn list_spec(ps: Seq<Probe>) -> Seq<Interface> {
    list_rec(ps, 0, Set::empty())
}

/// The set of names held in `ks`.
pub open spec fn names_of(ks: Seq<String>) -> Set<Seq<char>> {
    Set::new(|n: Seq<char>| exists|j: int| 0 <= j < ks.len() && ks[j]@ == n)
}

impl Interface {
    /// An interface is running exactly when it has an address.
    pub fn is_running(&self) -> (r: bool)
        ensures
            r == (self.ipv4 != 0),
    {
        self.ipv4 != 0
    }

    /// Whether an entry with these flags belongs in the inventory.
    pub fn can_display(flags: u32) -> (r: bool)
        ensures
            r == can_display_spec(flags),
    {
        (IFF_LOOPBACK | IFF_NOARP) & flags == 0
    }

    /// Classification is a pure function of the wireless-capability
    /// query's outcome: the same outcome gives the same class, every call.
    pub fn classify(wireless: bool) -> (r: Class)
        ensures
            r == class_of(wireless),
    {
        if wireless {
            Class::Wlan
        } else {
            Class::Eth
        }
    }

    /// The interface record of one probe.
    pub fn new(index: i32, wireless: bool, ipv4: u32) -> (r: Interface)
        ensures
            r.index == index,
            r.class == class_of(wireless),
            r.ipv4 == ipv4,
    {
        Interface { index, ipv4, class: Interface::classify(wireless) }
    }
}

/// Whether `name` is among `known`.
fn contains_name(known: &Vec<String>, name: &String) -> (r: bool)
    ensures
        r == names_of(known@).contains(name@),
{
    let mut j: usize = 0;
    while j < known.len()
        invariant
            j <= known@.len(),
            forall|t: int| 0 <= t < j ==> known@[t]@ != name@,
        decreases known@.len() - j,
    {
        if known[j].eq(name) {
            assert(names_of(known@).contains(name@));
            return true;
        }
        j += 1;
    }
    assert(!names_of(known@).contains(name@));
    false
}

/// Inserting one more name into a set of names.
proof fn lemma_names_push(ks: Seq<String>, x: String)
    ensures
        names_of(ks.push(x)) =~= names_of(ks).insert(x@),
{
    assert forall|n: Seq<char>| names_of(ks).insert(x@).contains(n) implies names_of(
        ks.push(x),
    ).contains(n) by {
        if n == x@ {
            assert(ks.push(x)[ks.len() as int]@ == n);
        } else {
            let j = choose|j: int| 0 <= j < ks.len() && ks[j]@ == n;
            assert(ks.push(x)[j]@ == n);
        }
    }
    assert forall|n: Seq<char>| names_of(ks.push(x)).contains(n) implies names_of(ks).insert(
        x@,
    ).contains(n) by {
        let j = choose|j: int| 0 <= j < ks.push(x).len() && ks.push(x)[j]@ == n;
        if j < ks.len() {
            assert(ks[j]@ == n);
        }
    }
}

/// Builds the interface inventory from the probed entries of the OS
/// address table: entries flagged loopback or no-ARP are excluded
/// unconditionally, and of several entries with one name (one per address
/// family) only the first yields a record.
pub fn list(probes: &Vec<Probe>) -> (r: Vec<Interface>)
    ensures
        r@ == list_spec(probes@),
{
    let mut result: Vec<Interface> = Vec::new();
    let mut known: Vec<String> = Vec::new();
    let mut i: usize = 0;
    proof {
        assert(names_of(known@) =~= Set::<Seq<char>>::empty());
        assert(result@ + list_rec(probes@, 0, Set::empty()) =~= list_rec(probes@, 0, Set::empty()));
    }
    while i < probes.len()
        invariant
            i <= probes@.len(),
            list_spec(probes@) == result@ + list_rec(probes@, i as int, names_of(known@)),
        decreases probes@.len() - i,
    {
        let p = &probes[i];
        if Interface::can_display(p.flags) && !contains_name(&known, &p.name) {
            let ghost known_pre = known@;
            let ghost result_pre = result@;
            known.push(p.name.clone());
            result.push(Interface::new(p.index, p.wireless, p.ipv4));
            proof {
                lemma_names_push(known_pre, probes@[i as int].name);
                assert(list_rec(probes@, i as int, names_of(known_pre)) == seq![
                    iface_of(probes@[i as int]),
                ] + list_rec(probes@, i + 1, names_of(known@)));
                assert(result_pre + (seq![iface_of(probes@[i as int])] + list_rec(
                    probes@,
                    i + 1,
                    names_of(known@),
                )) =~= result@ + list_rec(probes@, i + 1, names_of(known@)));
            }
        } else {
            assert(list_rec(probes@, i as int, names_of(known@)) == list_rec(
                probes@,
                i + 1,
                names_of(known@),
            ));
        }
        i += 1;
    }
    proof {
        assert(result@ + list_rec(probes@, i as int, names_of(known@)) =~= result@);
    }
    result
}

/// No interface that `list` returns comes from an entry with the
/// loopback or no-ARP flag set: each returned record is the image of a
/// probe whose flags pass the display filter.
pub proof fn lemma_list_excludes_flagged(ps: Seq<Probe>, k: int)
    requires
        0 <= k < list_spec(ps).len(),
    ensures
        exists|j: int|
            0 <= j < ps.len() && can_display_spec(#[trigger] ps[j].flags) && list_spec(ps)[k]
                == iface_of(ps[j]),
{
    lemma_list_rec_source(ps, 0, Set::empty(), k);
}

/// Every record that `list_rec` yields is the image of a displayable
/// probe at or after the position it starts from.
proof fn lemma_list_rec_source(ps: Seq<Probe>, i: int, seen: Set<Seq<char>>, k: int)
    requires
        0 <= i,
        0 <= k < list_rec(ps, i, seen).len(),
    ensures
        exists|j: int|
            i <= j < ps.len() && can_display_spec(#[trigger] ps[j].flags) && list_rec(
                ps,
                i,
                seen,
            )[k] == iface_of(ps[j]),
    decreases ps.len() - i,
{
    if i >= ps.len() {
    } else if can_display_spec(ps[i].flags) && !seen.contains(ps[i].name@) {
        if k == 0 {
            assert(can_display_spec(ps[i].flags) && list_rec(ps, i, seen)[0] == iface_of(ps[i]));
        } else {
            lemma_list_rec_source(ps, i + 1, seen.insert(ps[i].name@), k - 1);
            let j = choose|j: int|
                i + 1 <= j < ps.len() && can_display_spec(#[trigger] ps[j].flags) && list_rec(
                    ps,
                    i + 1,
                    seen.insert(ps[i].name@),
                )[k - 1] == iface_of(ps[j]);
            assert(list_rec(ps, i, seen)[k] == list_rec(ps, i + 1, seen.insert(ps[i].name@))[k - 1]);
            assert(can_display_spec(ps[j].flags));
        }
    } else {
        lemma_list_rec_source(ps, i + 1, seen, k);
    }
}

} // verus!
