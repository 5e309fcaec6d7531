//! Classifying and ranking local network interfaces.

use vstd::prelude::*;
use crate::text::has_infix;
use crate::text::has_prefix;
use crate::text::occurs_at as occurs_at_spec;
use crate::text::str_contains;
use crate::text::str_starts_with;

verus! {

/// The class of a network interface.
#[derive(Debug, Clone, Copy, PartialEq, Eq, Structural)]
pub enum InterfaceType {
    Thunderbolt,
    Ethernet,
    Wifi,
    Loopback,
    Other,
}

/// Fixed priority of each class; higher is better.
pub open spec fn priority_of(t: InterfaceType) -> u8 {
    match t {
        InterfaceType::Thunderbolt => 100,
        InterfaceType::Ethernet => 80,
        InterfaceType::Wifi => 60,
        InterfaceType::Loopback => 10,
        InterfaceType::Other => 1,
    }
}

/// Name patterns of a high-speed bridge (Thunderbolt) interface.
pub open spec fn bridge_name(name: Seq<char>) -> bool {
    has_infix(name, "thunderbolt"@) || has_infix(name, "tb"@) || has_infix(name, "bridge"@) || (
    has_prefix(name, "en"@) && (has_infix(name, "5"@) || has_infix(name, "6"@)))
}

/// Name patterns of an Ethernet interface.
pub open spec fn ethernet_name(name: Seq<char>) -> bool {
    has_infix(name, "eth"@) || has_infix(name, "en"@) || has_prefix(name, "en"@)
}

/// Name patterns of a WiFi interface.
pub open spec fn wifi_name(name: Seq<char>) -> bool {
    has_infix(name, "wlan"@) || has_infix(name, "wifi"@) || has_infix(name, "wi-fi"@) || has_prefix(
        name,
        "wl"@,
    )
}

/// The class of an interface from its name and whether its address is a
/// loopback address; the first matching class in the order loopback,
/// bridge, Ethernet, WiFi wins.
pub open spec fn class_of(name: Seq<char>, loopback_address: bool) -> InterfaceType {
    if has_infix(name, "lo"@) || loopback_address {
        InterfaceType::Loopback
    } else if bridge_name(name) {
        InterfaceType::Thunderbolt
    } else if ethernet_name(name) {
        InterfaceType::Ethernet
    } else if wifi_name(name) {
        InterfaceType::Wifi
    } else {
        InterfaceType::Other
    }
}

impl InterfaceType {
    /// The priority of this class.
    pub fn priority(&self) -> (r: u8)
        ensures
            r == priority_of(*self),
    {
        match self {
            InterfaceType::Thunderbolt => 100,
            InterfaceType::Ethernet => 80,
            InterfaceType::Wifi => 60,
            InterfaceType::Loopback => 10,
            InterfaceType::Other => 1,
        }
    }
}

/// An interface as plain values.
pub struct InterfaceView {
    pub name: Seq<char>,
    pub ip: Seq<char>,
    pub interface_type: InterfaceType,
    pub priority: u8,
}

/// A local network interface with a usable address.
#[derive(Debug, Clone)]
pub struct NetworkInterface {
    pub name: String,
    /// The address in text form.
    pub ip: String,
    pub interface_type: InterfaceType,
    /// Higher is better.
    pub priority: u8,
}

impl View for NetworkInterface {
    type V = InterfaceView;

    open spec fn view(&self) -> InterfaceView {
        InterfaceView {
            name: self.name@,
            ip: self.ip@,
            interface_type: self.interface_type,
            priority: self.priority,
        }
    }
}

/// The views of a list of interfaces.
pub open spec fn views(s: Seq<NetworkInterface>) -> Seq<InterfaceView> {
    s.map_values(|x: NetworkInterface| x@)
}

/// The entries of `s` whose priority is `p`, in their order.
pub open spec fn with_priority(s: Seq<InterfaceView>, p: nat) -> Seq<InterfaceView>
    decreases s.len(),
{
    if s.len() == 0 {
        Seq::empty()
    } else if s.last().priority == p {
        with_priority(s.drop_last(), p).push(s.last())
    } else {
        with_priority(s.drop_last(), p)
    }
}

/// The entries of `s` with priority at least `lo`, highest priority first
/// and in their order within one priority.
pub open spec fn ranked_from(s: Seq<InterfaceView>, lo: nat) -> Seq<InterfaceView>
    decreases 256 - lo,
{
    if lo > 255 {
        Seq::empty()
    } else {
        ranked_from(s, lo + 1) + with_priority(s, lo)
    }
}

/// `s` ordered by descending priority, keeping the order of equal ones.
pub open spec fn ranked(s: Seq<InterfaceView>) -> Seq<InterfaceView> {
    ranked_from(s, 0)
}

proof fn lemma_with_priority_all(s: Seq<InterfaceView>, p: nat)
    ensures
        forall|i: int|
            0 <= i < with_priority(s, p).len() ==> #[trigger] with_priority(s, p)[i].priority == p,
    decreases s.len(),
{
    if s.len() > 0 {
        lemma_with_priority_all(s.drop_last(), p);
    }
}

proof fn lemma_ranked_from_sorted(s: Seq<InterfaceView>, lo: nat)
    ensures
        forall|i: int|
            0 <= i < ranked_from(s, lo).len() ==> #[trigger] ranked_from(s, lo)[i].priority >= lo,
        forall|i: int, j: int|
            #![trigger ranked_from(s, lo)[i], ranked_from(s, lo)[j]]
            0 <= i < j < ranked_from(s, lo).len() ==> ranked_from(s, lo)[i].priority >= ranked_from(
                s,
                lo,
            )[j].priority,
    decreases 256 - lo,
{
    if lo <= 255 {
        lemma_ranked_from_sorted(s, lo + 1);
        lemma_with_priority_all(s, lo);
        let a = ranked_from(s, lo + 1);
        let b = with_priority(s, lo);
        assert(ranked_from(s, lo) == a + b);
        assert forall|i: int| 0 <= i < (a + b).len() implies #[trigger] (a + b)[i].priority >= lo by {
            if i < a.len() {
                assert(a[i].priority >= lo + 1);
            } else {
                assert(b[i - a.len()].priority == lo);
            }
        }
        assert forall|i: int, j: int| 0 <= i < j < (a + b).len() implies #[trigger] (a + b)[i].priority
            >= #[trigger] (a + b)[j].priority by {
            if j < a.len() {
                assert(a[i].priority >= a[j].priority);
            } else if i < a.len() {
                assert(a[i].priority >= lo + 1);
                assert(b[j - a.len()].priority == lo);
            } else {
                assert(b[i - a.len()].priority == lo);
                assert(b[j - a.len()].priority == lo);
            }
        }
    }
}

/// Ranking orders interfaces by descending priority.
pub proof fn lemma_ranked_sorted(s: Seq<InterfaceView>)
    ensures
        forall|i: int, j: int|
            #![trigger ranked(s)[i], ranked(s)[j]]
            0 <= i < j < ranked(s).len() ==> ranked(s)[i].priority >= ranked(s)[j].priority,
{
    lemma_ranked_from_sorted(s, 0);
}

impl NetworkInterface {
    /// An interface of class `interface_type`, with that class's priority.
    pub fn new(name: String, ip: String, interface_type: InterfaceType) -> (r: Self)
        ensures
            r.name@ == name@,
            r.ip@ == ip@,
            r.interface_type == interface_type,
            r.priority == priority_of(interface_type),
    {
        let priority = interface_type.priority();
        NetworkInterface { name, ip, interface_type, priority }
    }

    /// The class of an interface named `name`, whose address is a loopback
    /// address when `loopback_address` holds.
    pub fn detect_interface_type(name: &str, loopback_address: bool) -> (r: InterfaceType)
        ensures
            r == class_of(name@, loopback_address),
    {
        if str_contains(name, "lo") || loopback_address {
            InterfaceType::Loopback
        } else if str_contains(name, "thunderbolt") || str_contains(name, "tb") || str_contains(
            name,
            "bridge",
        ) || (str_starts_with(name, "en") && (str_contains(name, "5") || str_contains(name, "6"))) {
            InterfaceType::Thunderbolt
        } else if str_contains(name, "eth") || str_contains(name, "en") || str_starts_with(name, "en") {
            InterfaceType::Ethernet
        } else if str_contains(name, "wlan") || str_contains(name, "wifi") || str_contains(name, "wi-fi")
            || str_starts_with(name, "wl") {
            InterfaceType::Wifi
        } else {
            InterfaceType::Other
        }
    }

    /// A copy with the same fields.
    pub fn duplicate(&self) -> (r: Self)
        ensures
            r@ == self@,
    {
        NetworkInterface {
            name: self.name.clone(),
            ip: self.ip.clone(),
            interface_type: self.interface_type,
            priority: self.priority,
        }
    }
}

fn push_with_priority(list: &Vec<NetworkInterface>, p: u8, out: &mut Vec<NetworkInterface>)
    ensures
        views(final(out)@) == views(old(out)@) + with_priority(views(list@), p as nat),
{
    let ghost start = views(out@);
    let mut i: usize = 0;
    assert(views(list@).subrange(0, 0) =~= Seq::<InterfaceView>::empty());
    assert(start + Seq::<InterfaceView>::empty() =~= start);
    while i < list.len()
        invariant
            i <= list@.len(),
            views(out@) == start + with_priority(views(list@).subrange(0, i as int), p as nat),
        decreases list.len() - i,
    {
        let ghost before = out@;
        let ghost vs = views(list@).subrange(0, i + 1);
        assert(vs.drop_last() =~= views(list@).subrange(0, i as int));
        assert(vs.last() == list@[i as int]@);
        if list[i].priority == p {
            let d = list[i].duplicate();
            out.push(d);
            assert(views(out@) =~= views(before).push(d@));
            assert(views(out@) =~= start + with_priority(vs, p as nat));
        }
        i = i + 1;
    }
    assert(views(list@).subrange(0, i as int) =~= views(list@));
}

/// The interfaces ordered by descending priority; interfaces of equal
/// priority keep their order.
pub fn rank_interfaces(list: &Vec<NetworkInterface>) -> (r: Vec<NetworkInterface>)
    ensures
        views(r@) == ranked(views(list@)),
        forall|i: int, j: int| #![trigger r@[i], r@[j]] 0 <= i < j < r@.len() ==> r@[i].priority >= r@[j].priority,
{
    let mut out: Vec<NetworkInterface> = Vec::new();
    let mut p: u16 = 256;
    assert(views(out@) =~= ranked_from(views(list@), 256));
    while p > 0
        invariant
            p <= 256,
            views(out@) == ranked_from(views(list@), p as nat),
        decreases p,
    {
        p = p - 1;
        push_with_priority(list, p as u8, &mut out);
    }
    proof {
        lemma_ranked_sorted(views(list@));
        assert forall|i: int, j: int| 0 <= i < j < out@.len() implies #[trigger] out@[i].priority
            >= #[trigger] out@[j].priority by {
            assert(views(out@)[i] == out@[i]@);
            assert(views(out@)[j] == out@[j]@);
        }
    }
    out
}

/// Why no interface could be chosen.
#[derive(Debug, Clone, Copy, PartialEq, Eq)]
pub enum InterfaceError {
    /// Every interface is a loopback interface, or there is none.
    NoInterfaceAvailable,
}

/// The first interface of `list` that is not a loopback interface.
pub fn get_best_interface(list: &Vec<NetworkInterface>) -> (r: Result<NetworkInterface, InterfaceError>)
    ensures
        r is Err <==> forall|i: int|
            0 <= i < list@.len() ==> #[trigger] list@[i].interface_type == InterfaceType::Loopback,
        r is Ok ==> exists|i: int|
            0 <= i < list@.len() && list@[i]@ == r->Ok_0@ && list@[i].interface_type
                != InterfaceType::Loopback && forall|j: int|
                0 <= j < i ==> #[trigger] list@[j].interface_type == InterfaceType::Loopback,
{
    let mut i: usize = 0;
    while i < list.len()
        invariant
            i <= list@.len(),
            forall|j: int| 0 <= j < i ==> #[trigger] list@[j].interface_type == InterfaceType::Loopback,
        decreases list.len() - i,
    {
        if list[i].interface_type != InterfaceType::Loopback {
            return Ok(list[i].duplicate());
        }
        i = i + 1;
    }
    Err(InterfaceError::NoInterfaceAvailable)
}

/// An address of a local interface as the operating system reports it.
pub struct AddressCandidate {
    pub name: String,
    /// The address in text form.
    pub ip: String,
    pub is_loopback_address: bool,
    pub is_unspecified: bool,
    pub is_multicast: bool,
}

/// The interface that a usable candidate becomes.
pub open spec fn candidate_view(c: AddressCandidate) -> InterfaceView {
    let t = class_of(c.name@, c.is_loopback_address);
    InterfaceView { name: c.name@, ip: c.ip@, interface_type: t, priority: priority_of(t) }
}

/// The interfaces of the candidates whose address is neither unspecified
/// nor multicast, in their order.
pub open spec fn usable(c: Seq<AddressCandidate>) -> Seq<InterfaceView>
    decreases c.len(),
{
    if c.len() == 0 {
        Seq::empty()
    } else if !c.last().is_unspecified && !c.last().is_multicast {
        usable(c.drop_last()).push(candidate_view(c.last()))
    } else {
        usable(c.drop_last())
    }
}

/// Classifies the candidates with a usable address and ranks them by
/// descending priority.
pub fn select_interfaces(candidates: &Vec<AddressCandidate>) -> (r: Vec<NetworkInterface>)
    ensures
        views(r@) == ranked(usable(candidates@)),
{
    let mut found: Vec<NetworkInterface> = Vec::new();
    let mut i: usize = 0;
    assert(candidates@.subrange(0, 0) =~= Seq::<AddressCandidate>::empty());
    assert(views(found@) =~= Seq::<InterfaceView>::empty());
    while i < candidates.len()
        invariant
            i <= candidates@.len(),
            views(found@) == usable(candidates@.subrange(0, i as int)),
        decreases candidates.len() - i,
    {
        let ghost cs = candidates@.subrange(0, i + 1);
        assert(cs.drop_last() =~= candidates@.subrange(0, i as int));
        let c = &candidates[i];
        if !c.is_unspecified && !c.is_multicast {
            let t = NetworkInterface::detect_interface_type(c.name.as_str(), c.is_loopback_address);
            let n = NetworkInterface::new(c.name.clone(), c.ip.clone(), t);
            let ghost before = found@;
            found.push(n);
            assert(views(found@) =~= views(before).push(n@));
            assert(n@ == candidate_view(cs.last()));
        }
        i = i + 1;
    }
    assert(candidates@.subrange(0, i as int) =~= candidates@);
    rank_interfaces(&found)
}

proof fn lemma_with_priority_members(s: Seq<InterfaceView>, p: nat)
    ensures
        forall|i: int|
            0 <= i < with_priority(s, p).len() ==> #[trigger] s.contains(with_priority(s, p)[i]),
        (exists|j: int| 0 <= j < s.len() && s[j].priority == p) ==> with_priority(s, p).len() > 0,
    decreases s.len(),
{
    if s.len() > 0 {
        let t = s.drop_last();
        lemma_with_priority_members(t, p);
        assert forall|i: int| 0 <= i < with_priority(s, p).len() implies #[trigger] s.contains(
            with_priority(s, p)[i],
        ) by {
            let w = with_priority(s, p)[i];
            if i < with_priority(t, p).len() {
                assert(with_priority(s, p)[i] == with_priority(t, p)[i]);
                assert(t.contains(w));
                let k = choose|k: int| 0 <= k < t.len() && t[k] == w;
                assert(s[k] == w);
            } else {
                assert(s[s.len() - 1] == w);
            }
        }
        if exists|j: int| 0 <= j < s.len() && s[j].priority == p {
            let j = choose|j: int| 0 <= j < s.len() && s[j].priority == p;
            if j < s.len() - 1 {
                assert(t[j] == s[j]);
            }
        }
    }
}

proof fn lemma_ranked_from_above(s: Seq<InterfaceView>, lo: nat)
    requires
        101 <= lo,
        forall|i: int| 0 <= i < s.len() ==> #[trigger] s[i].priority <= 100,
    ensures
        ranked_from(s, lo).len() == 0,
    decreases 256 - lo,
{
    if lo <= 255 {
        lemma_ranked_from_above(s, lo + 1);
        lemma_with_priority_members(s, lo);
        if with_priority(s, lo).len() > 0 {
            let w = with_priority(s, lo)[0];
            lemma_with_priority_all(s, lo);
            assert(s.contains(w));
            let k = choose|k: int| 0 <= k < s.len() && s[k] == w;
            assert(s[k].priority <= 100);
        }
    }
}

proof fn lemma_ranked_from_prefix(s: Seq<InterfaceView>, lo: nat, hi: nat)
    requires
        lo <= hi,
    ensures
        ranked_from(s, lo).len() >= ranked_from(s, hi).len(),
        ranked_from(s, lo).subrange(0, ranked_from(s, hi).len() as int) == ranked_from(s, hi),
    decreases hi - lo,
{
    if lo < hi && lo <= 255 {
        lemma_ranked_from_prefix(s, lo + 1, hi);
        let a = ranked_from(s, lo + 1);
        assert(ranked_from(s, lo) == a + with_priority(s, lo));
        assert((a + with_priority(s, lo)).subrange(0, ranked_from(s, hi).len() as int) =~= a.subrange(
            0,
            ranked_from(s, hi).len() as int,
        ));
    } else if lo < hi {
        assert(ranked_from(s, lo).len() == 0);
        lemma_ranked_from_empty_above(s, hi);
    } else {
        assert(ranked_from(s, lo).subrange(0, ranked_from(s, lo).len() as int) =~= ranked_from(s, lo));
    }
}

proof fn lemma_ranked_from_empty_above(s: Seq<InterfaceView>, lo: nat)
    requires
        lo > 255,
    ensures
        ranked_from(s, lo).len() == 0,
{
}

proof fn lemma_usable_priorities(c: Seq<AddressCandidate>)
    ensures
        forall|i: int|
            0 <= i < usable(c).len() ==> #[trigger] usable(c)[i].priority == priority_of(
                usable(c)[i].interface_type,
            ),
    decreases c.len(),
{
    if c.len() > 0 {
        lemma_usable_priorities(c.drop_last());
    }
}

/// When a bridge-class interface has a usable address, the interface
/// ranked first is of the bridge class: that class outranks Ethernet,
/// WiFi, loopback and the rest, so it is also the best interface.
pub proof fn lemma_bridge_ranks_first(c: Seq<AddressCandidate>)
    requires
        exists|i: int|
            0 <= i < usable(c).len() && #[trigger] usable(c)[i].interface_type == InterfaceType::Thunderbolt,
    ensures
        ranked(usable(c)).len() > 0,
        ranked(usable(c))[0].interface_type == InterfaceType::Thunderbolt,
        usable(c).contains(ranked(usable(c))[0]),
{
    let s = usable(c);
    lemma_usable_priorities(c);
    let j = choose|i: int| 0 <= i < s.len() && #[trigger] s[i].interface_type == InterfaceType::Thunderbolt;
    assert(s[j].priority == 100);
    assert forall|i: int| 0 <= i < s.len() implies #[trigger] s[i].priority <= 100 by {
        assert(s[i].priority == priority_of(s[i].interface_type));
    }
    lemma_ranked_from_above(s, 101);
    lemma_with_priority_members(s, 100);
    lemma_with_priority_all(s, 100);
    let top = ranked_from(s, 100);
    assert(top =~= ranked_from(s, 101) + with_priority(s, 100));
    assert(top.len() > 0);
    lemma_ranked_from_prefix(s, 0, 100);
    assert(ranked(s)[0] == top[0]) by {
        assert(ranked_from(s, 0).subrange(0, top.len() as int)[0] == ranked_from(s, 0)[0]);
    }
    let w = with_priority(s, 100)[0];
    assert(top[0] == w);
    assert(s.contains(w));
    let k = choose|k: int| 0 <= k < s.len() && s[k] == w;
    assert(s[k].priority == priority_of(s[k].interface_type));
}

proof fn lemma_no_infix(hay: Seq<char>, needle: Seq<char>)
    requires
        forall|i: int|
            0 <= i && i + needle.len() <= hay.len() ==> #[trigger] hay.subrange(i, i + needle.len())
                != needle,
    ensures
        !has_infix(hay, needle),
{
}

/// The classes of `lo` (a loopback address), `en0`, `en5` and `wl0`.
pub proof fn lemma_example_classes()
    ensures
        class_of("lo"@, true) == InterfaceType::Loopback,
        class_of("en0"@, false) == InterfaceType::Ethernet,
        class_of("en5"@, false) == InterfaceType::Thunderbolt,
        class_of("wl0"@, false) == InterfaceType::Wifi,
{
    reveal_strlit("lo");
    reveal_strlit("en0");
    reveal_strlit("en5");
    reveal_strlit("wl0");
    reveal_strlit("en");
    reveal_strlit("5");
    reveal_strlit("6");
    reveal_strlit("tb");
    reveal_strlit("thunderbolt");
    reveal_strlit("bridge");
    reveal_strlit("eth");
    reveal_strlit("wl");
    reveal_strlit("wlan");
    reveal_strlit("wifi");
    reveal_strlit("wi-fi");
    assert("en5"@.subrange(0, 2) =~= "en"@);
    assert("en5"@.subrange(2, 3) =~= "5"@);
    assert(occurs_at_spec("en5"@, "5"@, 2));
    assert("en0"@.subrange(0, 2) =~= "en"@);
    assert("wl0"@.subrange(0, 2) =~= "wl"@);
    assert forall|i: int| 0 <= i && i + 2 <= 3 implies #[trigger] "en5"@.subrange(i, i + 2) != "lo"@ by {
        assert("en5"@.subrange(i, i + 2)[0] != "lo"@[0] || "en5"@.subrange(i, i + 2)[1] != "lo"@[1]);
    }
    lemma_no_infix("en5"@, "lo"@);
    assert forall|i: int| 0 <= i && i + 2 <= 3 implies #[trigger] "en0"@.subrange(i, i + 2) != "lo"@ by {
        assert("en0"@.subrange(i, i + 2)[0] != "lo"@[0] || "en0"@.subrange(i, i + 2)[1] != "lo"@[1]);
    }
    lemma_no_infix("en0"@, "lo"@);
    assert forall|i: int| 0 <= i && i + 2 <= 3 implies #[trigger] "en0"@.subrange(i, i + 2) != "tb"@ by {
        assert("en0"@.subrange(i, i + 2)[0] != "tb"@[0] || "en0"@.subrange(i, i + 2)[1] != "tb"@[1]);
    }
    lemma_no_infix("en0"@, "tb"@);
    assert forall|i: int| 0 <= i && i + 1 <= 3 implies #[trigger] "en0"@.subrange(i, i + 1) != "5"@ by {
        assert("en0"@.subrange(i, i + 1)[0] != "5"@[0]);
    }
    lemma_no_infix("en0"@, "5"@);
    assert forall|i: int| 0 <= i && i + 1 <= 3 implies #[trigger] "en0"@.subrange(i, i + 1) != "6"@ by {
        assert("en0"@.subrange(i, i + 1)[0] != "6"@[0]);
    }
    lemma_no_infix("en0"@, "6"@);
    lemma_no_infix("en0"@, "thunderbolt"@);
    lemma_no_infix("en0"@, "bridge"@);
    assert forall|i: int| 0 <= i && i + 2 <= 3 implies #[trigger] "wl0"@.subrange(i, i + 2) != "lo"@ by {
        assert("wl0"@.subrange(i, i + 2)[0] != "lo"@[0] || "wl0"@.subrange(i, i + 2)[1] != "lo"@[1]);
    }
    lemma_no_infix("wl0"@, "lo"@);
    assert forall|i: int| 0 <= i && i + 2 <= 3 implies #[trigger] "wl0"@.subrange(i, i + 2) != "tb"@ by {
        assert("wl0"@.subrange(i, i + 2)[0] != "tb"@[0] || "wl0"@.subrange(i, i + 2)[1] != "tb"@[1]);
    }
    lemma_no_infix("wl0"@, "tb"@);
    assert forall|i: int| 0 <= i && i + 2 <= 3 implies #[trigger] "wl0"@.subrange(i, i + 2) != "en"@ by {
        assert("wl0"@.subrange(i, i + 2)[0] != "en"@[0] || "wl0"@.subrange(i, i + 2)[1] != "en"@[1]);
    }
    lemma_no_infix("wl0"@, "en"@);
    lemma_no_infix("wl0"@, "thunderbolt"@);
    lemma_no_infix("wl0"@, "bridge"@);
    assert forall|i: int| 0 <= i && i + 3 <= 3 implies #[trigger] "wl0"@.subrange(i, i + 3) != "eth"@ by {
        assert("wl0"@.subrange(i, i + 3)[0] != "eth"@[0]);
    }
    lemma_no_infix("wl0"@, "eth"@);
    assert(!has_prefix("wl0"@, "en"@)) by {
        assert("wl0"@.subrange(0, 2)[0] != "en"@[0]);
    }
    assert(has_infix("lo"@, "lo"@)) by {
        assert("lo"@.subrange(0, 2) =~= "lo"@);
        assert(occurs_at_spec("lo"@, "lo"@, 0));
    }
    assert(has_prefix("wl0"@, "wl"@));
}

/// With usable addresses on `lo` (a loopback address), `en0`, `en5` and
/// `wl0`, the interface ranked first, and so the best one, is `en5`: the
/// bridge class outranks Ethernet, WiFi and loopback.
pub proof fn lemma_bridge_example(c: Seq<AddressCandidate>)
    requires
        c.len() == 4,
        c[0].name@ == "lo"@ && c[0].is_loopback_address,
        c[1].name@ == "en0"@ && !c[1].is_loopback_address,
        c[2].name@ == "en5"@ && !c[2].is_loopback_address,
        c[3].name@ == "wl0"@ && !c[3].is_loopback_address,
        forall|i: int| 0 <= i < 4 ==> !(#[trigger] c[i]).is_unspecified && !c[i].is_multicast,
    ensures
        ranked(usable(c)).len() > 0,
        ranked(usable(c))[0].name == "en5"@,
        ranked(usable(c))[0].interface_type == InterfaceType::Thunderbolt,
        ranked(usable(c))[0].priority == 100,
{
    lemma_example_classes();
    let c3 = c.drop_last();
    let c2 = c3.drop_last();
    let c1 = c2.drop_last();
    let c0 = c1.drop_last();
    assert(c0.len() == 0);
    assert(c3.last() == c[2] && c2.last() == c[1] && c1.last() == c[0]);
    assert(!c[0].is_unspecified && !c[0].is_multicast);
    assert(!c[1].is_unspecified && !c[1].is_multicast);
    assert(!c[2].is_unspecified && !c[2].is_multicast);
    assert(!c[3].is_unspecified && !c[3].is_multicast);
    assert(usable(c0) == Seq::<InterfaceView>::empty());
    assert(usable(c1) == usable(c0).push(candidate_view(c[0])));
    assert(usable(c2) == usable(c1).push(candidate_view(c[1])));
    assert(usable(c3) == usable(c2).push(candidate_view(c[2])));
    assert(usable(c) == usable(c3).push(candidate_view(c[3])));
    let u = usable(c);
    assert(u =~= seq![candidate_view(c[0]), candidate_view(c[1]), candidate_view(c[2]), candidate_view(c[3])]);
    assert(u[2].interface_type == InterfaceType::Thunderbolt);
    lemma_bridge_ranks_first(c);
    let w = ranked(u)[0];
    let k = choose|k: int| 0 <= k < u.len() && u[k] == w;
    assert(k == 2);
}

} // verus!
