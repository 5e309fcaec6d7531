//! Node identities and the registry of peers found on the local network.

use vstd::prelude::*;
use vstd::utf8::*;
use vstd::string::StringExecFns;
use crate::ident::is_uuid_text;
use crate::ident::new_identifier;
use crate::interface::InterfaceType;
use crate::interface::NetworkInterface;
use crate::text::has_infix;
use crate::text::str_contains;
use crate::text::text_from_utf8;
use crate::text::texts;
use crate::text::split_on;
use crate::text::split_text;
use crate::text::join_commas;
use crate::text::join_with;
use crate::codec::copy_range;

verus! {

/// Service type under which nodes advertise themselves.
pub const SERVICE_TYPE: &'static str = "_node-controller._tcp.local.";

/// Port a node announces when none is chosen.
pub const DISCOVERY_PORT: u16 = 54321;

/// Validity of an advertisement, in seconds.
pub const ADVERTISE_TTL_SECS: u64 = 60;

/// Period of re-advertisement, in seconds; shorter than the TTL.
pub const REFRESH_INTERVAL_SECS: u64 = 55;

/// A peer not seen for longer than twice the TTL is dropped (milliseconds).
pub const EXPIRY_MILLIS: u64 = 120000;

/// Version of the running agent.
pub const AGENT_VERSION: &'static str = "0.1.0";

/// Capability every node advertises.
pub const DISCOVERY_CAPABILITY: &'static str = "discovery";

/// A node identity as plain values.
pub struct NodeView {
    pub id: Seq<char>,
    pub name: Seq<char>,
    pub ip: Seq<char>,
    pub port: u16,
    pub interface_type: Seq<char>,
    pub capabilities: Seq<Seq<char>>,
    pub version: Seq<char>,
}

/// Identity of a node, exchanged by discovery and used to address peers.
#[derive(Debug, Clone)]
pub struct NodeInfo {
    pub id: String,
    pub name: String,
    pub ip: String,
    pub port: u16,
    pub interface_type: String,
    pub capabilities: Vec<String>,
    pub version: String,
}

impl View for NodeInfo {
    type V = NodeView;

    open spec fn view(&self) -> NodeView {
        NodeView {
            id: self.id@,
            name: self.name@,
            ip: self.ip@,
            port: self.port,
            interface_type: self.interface_type@,
            capabilities: texts(self.capabilities@),
            version: self.version@,
        }
    }
}

/// The name of an interface class as advertised.
pub open spec fn type_label(t: InterfaceType) -> Seq<char> {
    match t {
        InterfaceType::Thunderbolt => "Thunderbolt"@,
        InterfaceType::Ethernet => "Ethernet"@,
        InterfaceType::Wifi => "Wifi"@,
        InterfaceType::Loopback => "Loopback"@,
        InterfaceType::Other => "Other"@,
    }
}

/// The name of an interface class as advertised.
pub fn interface_type_label(t: InterfaceType) -> (r: String)
    ensures
        r@ == type_label(t),
{
    match t {
        InterfaceType::Thunderbolt => String::from_str("Thunderbolt"),
        InterfaceType::Ethernet => String::from_str("Ethernet"),
        InterfaceType::Wifi => String::from_str("Wifi"),
        InterfaceType::Loopback => String::from_str("Loopback"),
        InterfaceType::Other => String::from_str("Other"),
    }
}

/// Copies of a list of texts.
pub fn copy_texts(s: &Vec<String>) -> (r: Vec<String>)
    ensures
        texts(r@) == texts(s@),
{
    let mut out: Vec<String> = Vec::new();
    let mut i: usize = 0;
    while i < s.len()
        invariant
            i <= s@.len(),
            texts(out@) == texts(s@.subrange(0, i as int)),
        decreases s.len() - i,
    {
        let ghost before = out@;
        out.push(s[i].clone());
        assert(texts(out@) =~= texts(before).push(s@[i as int]@));
        assert(texts(s@.subrange(0, i + 1)) =~= texts(s@.subrange(0, i as int)).push(s@[i as int]@));
        i = i + 1;
    }
    assert(s@.subrange(0, i as int) =~= s@);
    out
}

impl NodeInfo {
    /// The local node's identity: a fresh random id, the address and class
    /// of `interface`, the discovery capability and the agent version.
    pub fn new(name: String, interface: &NetworkInterface, port: u16) -> (r: Self)
        ensures
            is_uuid_text(r.id@),
            r.name@ == name@,
            r.ip@ == interface.ip@,
            r.port == port,
            r.interface_type@ == type_label(interface.interface_type),
            r@.capabilities == seq![DISCOVERY_CAPABILITY@],
            r.version@ == AGENT_VERSION@,
    {
        let id = new_identifier();
        let mut capabilities: Vec<String> = Vec::new();
        capabilities.push(String::from_str(DISCOVERY_CAPABILITY));
        assert(texts(capabilities@) =~= seq![DISCOVERY_CAPABILITY@]);
        NodeInfo {
            id,
            name,
            ip: interface.ip.clone(),
            port,
            interface_type: interface_type_label(interface.interface_type),
            capabilities,
            version: String::from_str(AGENT_VERSION),
        }
    }

    /// A copy with the same fields.
    pub fn duplicate(&self) -> (r: Self)
        ensures
            r@ == self@,
    {
        NodeInfo {
            id: self.id.clone(),
            name: self.name.clone(),
            ip: self.ip.clone(),
            port: self.port,
            interface_type: self.interface_type.clone(),
            capabilities: copy_texts(&self.capabilities),
            version: self.version.clone(),
        }
    }
}

/// A peer entry as plain values: the node and when it was last seen.
pub open spec fn entry_views(s: Seq<(NodeInfo, u64)>) -> Seq<(NodeView, u64)> {
    s.map_values(|e: (NodeInfo, u64)| (e.0@, e.1))
}

/// The registry that a list of entries stands for, keyed by node id; a
/// later entry for an id replaces an earlier one.
pub open spec fn peers_map(s: Seq<(NodeView, u64)>) -> Map<Seq<char>, (NodeView, u64)>
    decreases s.len(),
{
    if s.len() == 0 {
        Map::empty()
    } else {
        peers_map(s.drop_last()).insert(s.last().0.id, s.last())
    }
}

/// No two entries share an id.
pub open spec fn distinct_ids(s: Seq<(NodeView, u64)>) -> bool {
    forall|i: int, j: int| 0 <= i < j < s.len() ==> s[i].0.id != s[j].0.id
}

/// The entries of `m` that `keep` accepts.
pub open spec fn map_keep(
    m: Map<Seq<char>, (NodeView, u64)>,
    keep: spec_fn((NodeView, u64)) -> bool,
) -> Map<Seq<char>, (NodeView, u64)> {
    Map::new(|k: Seq<char>| m.contains_key(k) && keep(m[k]), |k: Seq<char>| m[k])
}

/// The entries of `s` whose flag is set, in their order.
pub open spec fn filter_flags(s: Seq<(NodeView, u64)>, f: Seq<bool>) -> Seq<(NodeView, u64)>
    decreases s.len(),
{
    if s.len() == 0 || f.len() == 0 {
        Seq::empty()
    } else if f.last() {
        filter_flags(s.drop_last(), f.drop_last()).push(s.last())
    } else {
        filter_flags(s.drop_last(), f.drop_last())
    }
}

proof fn lemma_peers_map_facts(s: Seq<(NodeView, u64)>)
    requires
        distinct_ids(s),
    ensures
        forall|i: int|
            0 <= i < s.len() ==> peers_map(s).contains_key(#[trigger] s[i].0.id) && peers_map(s)[s[i].0.id]
                == s[i],
        forall|k: Seq<char>|
            #[trigger] peers_map(s).contains_key(k) ==> exists|i: int| 0 <= i < s.len() && s[i].0.id == k,
    decreases s.len(),
{
    if s.len() > 0 {
        let t = s.drop_last();
        lemma_peers_map_facts(t);
        assert forall|k: Seq<char>| #[trigger] peers_map(s).contains_key(k) implies exists|i: int|
            0 <= i < s.len() && s[i].0.id == k by {
            if k != s.last().0.id {
                assert(peers_map(t).contains_key(k));
                let i = choose|i: int| 0 <= i < t.len() && t[i].0.id == k;
                assert(t[i] == s[i]);
            } else {
                assert(s[s.len() - 1].0.id == k);
            }
        }
        assert forall|i: int| 0 <= i < s.len() implies peers_map(s).contains_key(#[trigger] s[i].0.id)
            && peers_map(s)[s[i].0.id] == s[i] by {
            if i < s.len() - 1 {
                assert(t[i] == s[i]);
            }
        }
    }
}

proof fn lemma_peers_map_update(s: Seq<(NodeView, u64)>, i: int, e: (NodeView, u64))
    requires
        distinct_ids(s),
        0 <= i < s.len(),
        s[i].0.id == e.0.id,
    ensures
        peers_map(s.update(i, e)) == peers_map(s).insert(e.0.id, e),
        distinct_ids(s.update(i, e)),
    decreases s.len(),
{
    let u = s.update(i, e);
    if i == s.len() - 1 {
        assert(u.drop_last() =~= s.drop_last());
        assert(peers_map(u) =~= peers_map(s).insert(e.0.id, e));
    } else {
        let t = s.drop_last();
        assert(u.drop_last() =~= t.update(i, e));
        lemma_peers_map_update(t, i, e);
        assert(s.last().0.id != e.0.id) by {
            assert(s[i].0.id != s[s.len() - 1].0.id);
        }
        assert(peers_map(u) =~= peers_map(s).insert(e.0.id, e));
    }
}

proof fn lemma_filter_flags(
    s: Seq<(NodeView, u64)>,
    f: Seq<bool>,
    keep: spec_fn((NodeView, u64)) -> bool,
)
    requires
        distinct_ids(s),
        f.len() == s.len(),
        forall|i: int| 0 <= i < s.len() ==> f[i] == keep(#[trigger] s[i]),
    ensures
        peers_map(filter_flags(s, f)) == map_keep(peers_map(s), keep),
        distinct_ids(filter_flags(s, f)),
        forall|j: int|
            0 <= j < filter_flags(s, f).len() ==> exists|i: int|
                0 <= i < s.len() && s[i] == #[trigger] filter_flags(s, f)[j],
    decreases s.len(),
{
    lemma_peers_map_facts(s);
    if s.len() > 0 {
        let t = s.drop_last();
        let g = f.drop_last();
        assert forall|i: int| 0 <= i < t.len() implies g[i] == keep(#[trigger] t[i]) by {
            assert(t[i] == s[i]);
        }
        lemma_filter_flags(t, g, keep);
        lemma_peers_map_facts(t);
        let last = s.last();
        assert(!peers_map(t).contains_key(last.0.id)) by {
            if peers_map(t).contains_key(last.0.id) {
                let i = choose|i: int| 0 <= i < t.len() && t[i].0.id == last.0.id;
                assert(s[i].0.id != s[s.len() - 1].0.id);
            }
        }
        assert(f.last() == keep(s[s.len() - 1]));
        let ft = filter_flags(t, g);
        assert(peers_map(s) == peers_map(t).insert(last.0.id, last));
        if f.last() {
            assert(filter_flags(s, f) == ft.push(last));
            assert(ft.push(last).drop_last() =~= ft);
            assert(ft.push(last).last() == last);
            assert(peers_map(ft.push(last)) == peers_map(ft).insert(last.0.id, last));
            assert(keep(last));
            assert(peers_map(filter_flags(s, f)) =~= map_keep(peers_map(s), keep));
            assert forall|j: int| 0 <= j < ft.push(last).len() implies exists|i: int|
                0 <= i < s.len() && s[i] == #[trigger] ft.push(last)[j] by {
                if j < ft.len() {
                    let i = choose|i: int| 0 <= i < t.len() && t[i] == ft[j];
                    assert(s[i] == t[i]);
                } else {
                    assert(s[s.len() - 1] == ft.push(last)[j]);
                }
            }
            assert forall|a: int, b: int| 0 <= a < b < ft.push(last).len() implies ft.push(last)[a].0.id
                != ft.push(last)[b].0.id by {
                if b == ft.len() {
                    let i = choose|i: int| 0 <= i < t.len() && t[i] == ft[a];
                    assert(s[i].0.id != s[s.len() - 1].0.id);
                }
            }
        } else {
            assert(filter_flags(s, f) == ft);
            assert(peers_map(filter_flags(s, f)) =~= map_keep(peers_map(s), keep));
            assert forall|j: int| 0 <= j < ft.len() implies exists|i: int|
                0 <= i < s.len() && s[i] == #[trigger] ft[j] by {
                let i = choose|i: int| 0 <= i < t.len() && t[i] == ft[j];
                assert(s[i] == t[i]);
            }
        }
    } else {
        assert(peers_map(filter_flags(s, f)) =~= map_keep(peers_map(s), keep));
    }
}

/// A peer last seen at `seen` has expired at `now` when more than
/// `EXPIRY_MILLIS` have passed; a clock reading before `seen` counts as no
/// time passed.
pub open spec fn expired(now: u64, seen: u64) -> bool {
    now > seen && now - seen > EXPIRY_MILLIS
}

/// The entries of a registry that have not expired at `now`.
pub open spec fn fresh_at(m: Map<Seq<char>, (NodeView, u64)>, now: u64) -> Map<
    Seq<char>,
    (NodeView, u64),
> {
    map_keep(m, |e: (NodeView, u64)| !expired(now, e.1))
}

/// The text before the first `.` of an advertised service instance name.
pub open spec fn instance_part(service_name: Seq<char>) -> Seq<char> {
    split_on(service_name, '.')[0]
}

/// The peers that remain after the service `service_name` was withdrawn:
/// every peer whose name occurs in the instance part of it goes.
pub open spec fn without_service(m: Map<Seq<char>, (NodeView, u64)>, service_name: Seq<char>) -> Map<
    Seq<char>,
    (NodeView, u64),
> {
    map_keep(m, |e: (NodeView, u64)| !has_infix(instance_part(service_name), e.0.name))
}

/// The peers seen on the network, keyed by node id, with the time each was
/// last seen (milliseconds on the caller's clock). The local node is never
/// among them.
pub struct PeerRegistry {
    local_id: String,
    peers: Vec<(NodeInfo, u64)>,
}

impl PeerRegistry {
    /// The registry as a map from node id to the node and when it was last
    /// seen.
    pub closed spec fn view(&self) -> Map<Seq<char>, (NodeView, u64)> {
        peers_map(entry_views(self.peers@))
    }

    /// Id of the local node.
    pub closed spec fn local(&self) -> Seq<char> {
        self.local_id@
    }

    pub closed spec fn wf(&self) -> bool {
        &&& distinct_ids(entry_views(self.peers@))
        &&& forall|i: int| 0 <= i < self.peers@.len() ==> #[trigger] self.peers@[i].0.id@ != self.local_id@
    }

    /// The local node is never in the registry.
    pub proof fn lemma_local_absent(&self)
        requires
            self.wf(),
        ensures
            !self.view().contains_key(self.local()),
    {
        lemma_peers_map_facts(entry_views(self.peers@));
        if self.view().contains_key(self.local()) {
            let s = entry_views(self.peers@);
            let i = choose|i: int| 0 <= i < s.len() && s[i].0.id == self.local();
            assert(s[i].0.id == self.peers@[i].0.id@);
        }
    }

    /// An empty registry for the node with id `local_id`.
    pub fn new(local_id: String) -> (r: Self)
        ensures
            r.wf(),
            r.local() == local_id@,
            r.view() == Map::<Seq<char>, (NodeView, u64)>::empty(),
    {
        let r = PeerRegistry { local_id, peers: Vec::new() };
        assert(entry_views(r.peers@) =~= Seq::<(NodeView, u64)>::empty());
        r
    }

    /// Notes that `node` was seen at `now`. The local node is ignored; a
    /// node already present is replaced, so a changed address does not make
    /// a second entry.
    pub fn observe(&mut self, node: NodeInfo, now: u64)
        requires
            old(self).wf(),
        ensures
            final(self).wf(),
            final(self).local() == old(self).local(),
            node.id@ == old(self).local() ==> final(self).view() == old(self).view(),
            node.id@ != old(self).local() ==> final(self).view() == old(self).view().insert(
                node.id@,
                (node@, now),
            ),
    {
        if node.id == self.local_id {
            return;
        }
        let mut i: usize = 0;
        while i < self.peers.len()
            invariant
                self.peers@ == old(self).peers@,
                self.local_id == old(self).local_id,
                old(self).wf(),
                node.id@ != self.local_id@,
                i <= self.peers@.len(),
                forall|j: int| 0 <= j < i ==> self.peers@[j].0.id@ != node.id@,
            decreases self.peers.len() - i,
        {
            if self.peers[i].0.id == node.id {
                let ghost e = (node@, now);
                proof {
                    assert(entry_views(self.peers@)[i as int].0.id == e.0.id);
                    lemma_peers_map_update(entry_views(self.peers@), i as int, e);
                }
                let ghost before = self.peers@;
                self.peers[i] = (node, now);
                assert(entry_views(self.peers@) =~= entry_views(before).update(i as int, e));
                assert forall|j: int| 0 <= j < self.peers@.len() implies #[trigger] self.peers@[j].0.id@
                    != self.local_id@ by {
                    if j != i {
                        assert(self.peers@[j] == before[j]);
                    }
                }
                return;
            }
            i = i + 1;
        }
        let ghost before = self.peers@;
        let ghost e = (node@, now);
        self.peers.push((node, now));
        let ghost ev = entry_views(self.peers@);
        assert(ev.drop_last() =~= entry_views(before));
        assert(ev.last() == e);
        assert forall|a: int, b: int| 0 <= a < b < ev.len() implies ev[a].0.id != ev[b].0.id by {
            assert(ev[a] == entry_views(before)[a] || a == ev.len() - 1);
            if b == ev.len() - 1 {
                assert(before[a].0.id@ != e.0.id);
            } else {
                assert(ev[b] == entry_views(before)[b]);
            }
        }
        assert forall|j: int| 0 <= j < self.peers@.len() implies #[trigger] self.peers@[j].0.id@
            != self.local_id@ by {
            if j < before.len() {
                assert(self.peers@[j] == before[j]);
            }
        }
    }

    /// Keeps the entries whose flag is set.
    fn retain_flagged(&mut self, flags: &Vec<bool>, Ghost(keep): Ghost<spec_fn((NodeView, u64)) -> bool>)
        requires
            old(self).wf(),
            flags@.len() == old(self).peers@.len(),
            forall|i: int|
                0 <= i < flags@.len() ==> flags@[i] == keep(#[trigger] entry_views(old(self).peers@)[i]),
        ensures
            final(self).wf(),
            final(self).local() == old(self).local(),
            final(self).view() == map_keep(old(self).view(), keep),
    {
        let ghost s = entry_views(self.peers@);
        let mut kept: Vec<(NodeInfo, u64)> = Vec::new();
        let mut i: usize = 0;
        assert(entry_views(kept@) =~= filter_flags(s.subrange(0, 0), flags@.subrange(0, 0)));
        while i < self.peers.len()
            invariant
                self.peers@ == old(self).peers@,
                s == entry_views(self.peers@),
                flags@.len() == self.peers@.len(),
                i <= self.peers@.len(),
                entry_views(kept@) == filter_flags(s.subrange(0, i as int), flags@.subrange(0, i as int)),
            decreases self.peers.len() - i,
        {
            let ghost si = s.subrange(0, i + 1);
            let ghost fi = flags@.subrange(0, i + 1);
            assert(si.drop_last() =~= s.subrange(0, i as int));
            assert(fi.drop_last() =~= flags@.subrange(0, i as int));
            if flags[i] {
                let ghost before = kept@;
                let e = (self.peers[i].0.duplicate(), self.peers[i].1);
                kept.push(e);
                assert(entry_views(kept@) =~= entry_views(before).push(s[i as int]));
            }
            i = i + 1;
        }
        assert(s.subrange(0, i as int) =~= s);
        assert(flags@.subrange(0, i as int) =~= flags@);
        proof {
            lemma_filter_flags(s, flags@, keep);
            assert forall|j: int| 0 <= j < kept@.len() implies #[trigger] kept@[j].0.id@ != self.local_id@ by {
                assert(entry_views(kept@)[j].0.id == kept@[j].0.id@);
                let i = choose|i: int| 0 <= i < s.len() && s[i] == filter_flags(s, flags@)[j];
                assert(s[i].0.id == self.peers@[i].0.id@);
            }
        }
        self.peers = kept;
    }

    /// Drops every peer that has expired at `now`.
    pub fn prune(&mut self, now: u64)
        requires
            old(self).wf(),
        ensures
            final(self).wf(),
            final(self).local() == old(self).local(),
            final(self).view() == fresh_at(old(self).view(), now),
    {
        let mut flags: Vec<bool> = Vec::new();
        let mut i: usize = 0;
        while i < self.peers.len()
            invariant
                i <= self.peers@.len(),
                flags@.len() == i,
                forall|j: int| 0 <= j < i ==> flags@[j] == !expired(now, #[trigger] self.peers@[j].1),
            decreases self.peers.len() - i,
        {
            let seen = self.peers[i].1;
            let gone = now > seen && now - seen > EXPIRY_MILLIS;
            flags.push(!gone);
            i = i + 1;
        }
        let ghost keep = |e: (NodeView, u64)| !expired(now, e.1);
        assert forall|j: int| 0 <= j < flags@.len() implies flags@[j] == keep(
            #[trigger] entry_views(self.peers@)[j],
        ) by {
            assert(entry_views(self.peers@)[j].1 == self.peers@[j].1);
        }
        self.retain_flagged(&flags, Ghost(keep));
        assert(self.view() =~= fresh_at(old(self).view(), now));
    }

    /// Drops every peer whose name occurs in the instance part (the text
    /// before the first `.`) of the withdrawn service `service_name`.
    pub fn remove_service(&mut self, service_name: &str)
        requires
            old(self).wf(),
        ensures
            final(self).wf(),
            final(self).local() == old(self).local(),
            final(self).view() == without_service(old(self).view(), service_name@),
    {
        let pieces = split_text(service_name, '.');
        proof {
            crate::text::lemma_split_on_nonempty(service_name@, '.');
        }
        let part = &pieces[0];
        assert(part@ == instance_part(service_name@));
        let mut flags: Vec<bool> = Vec::new();
        let mut i: usize = 0;
        while i < self.peers.len()
            invariant
                part@ == instance_part(service_name@),
                i <= self.peers@.len(),
                flags@.len() == i,
                forall|j: int|
                    0 <= j < i ==> flags@[j] == !has_infix(
                        instance_part(service_name@),
                        #[trigger] self.peers@[j].0.name@,
                    ),
            decreases self.peers.len() - i,
        {
            let named = str_contains(part.as_str(), self.peers[i].0.name.as_str());
            flags.push(!named);
            i = i + 1;
        }
        let ghost keep = |e: (NodeView, u64)| !has_infix(instance_part(service_name@), e.0.name);
        assert forall|j: int| 0 <= j < flags@.len() implies flags@[j] == keep(
            #[trigger] entry_views(self.peers@)[j],
        ) by {
            assert(entry_views(self.peers@)[j].0.name == self.peers@[j].0.name@);
        }
        self.retain_flagged(&flags, Ghost(keep));
        assert(self.view() =~= without_service(old(self).view(), service_name@));
    }

    /// Copies of the nodes in the registry, one per id.
    pub fn nodes(&self) -> (r: Vec<NodeInfo>)
        requires
            self.wf(),
        ensures
            forall|i: int|
                0 <= i < r@.len() ==> self.view().contains_key(#[trigger] r@[i]@.id) && self.view()[r@[i]@.id].0
                    == r@[i]@,
            forall|k: Seq<char>|
                #[trigger] self.view().contains_key(k) ==> exists|i: int| 0 <= i < r@.len() && r@[i]@.id == k,
            forall|i: int, j: int| 0 <= i < j < r@.len() ==> r@[i]@.id != r@[j]@.id,
    {
        let ghost s = entry_views(self.peers@);
        proof {
            lemma_peers_map_facts(s);
        }
        let mut out: Vec<NodeInfo> = Vec::new();
        let mut i: usize = 0;
        while i < self.peers.len()
            invariant
                s == entry_views(self.peers@),
                i <= self.peers@.len(),
                out@.len() == i,
                forall|j: int| 0 <= j < i ==> #[trigger] out@[j]@ == s[j].0,
            decreases self.peers.len() - i,
        {
            out.push(self.peers[i].0.duplicate());
            i = i + 1;
        }
        proof {
            assert forall|i: int| 0 <= i < out@.len() implies self.view().contains_key(#[trigger] out@[i]@.id)
                && self.view()[out@[i]@.id].0 == out@[i]@ by {
                assert(out@[i]@ == s[i].0);
            }
            assert forall|k: Seq<char>| #[trigger] self.view().contains_key(k) implies exists|i: int|
                0 <= i < out@.len() && out@[i]@.id == k by {
                let i = choose|i: int| 0 <= i < s.len() && s[i].0.id == k;
                assert(out@[i]@ == s[i].0);
            }
            assert forall|i: int, j: int| 0 <= i < j < out@.len() implies out@[i]@.id != out@[j]@.id by {
                assert(out@[i]@ == s[i].0);
                assert(out@[j]@ == s[j].0);
            }
        }
        out
    }

    /// Drops the peers that have expired at `now`, then gives copies of the
    /// rest, one per id.
    pub fn get_discovered_nodes(&mut self, now: u64) -> (r: Vec<NodeInfo>)
        requires
            old(self).wf(),
        ensures
            final(self).wf(),
            final(self).local() == old(self).local(),
            final(self).view() == fresh_at(old(self).view(), now),
            forall|i: int|
                0 <= i < r@.len() ==> final(self).view().contains_key(#[trigger] r@[i]@.id)
                    && final(self).view()[r@[i]@.id].0 == r@[i]@,
            forall|k: Seq<char>|
                #[trigger] final(self).view().contains_key(k) ==> exists|i: int|
                    0 <= i < r@.len() && r@[i]@.id == k,
            forall|i: int, j: int| 0 <= i < j < r@.len() ==> r@[i]@.id != r@[j]@.id,
    {
        self.prune(now);
        self.nodes()
    }
}

/// A peer whose last refresh lies no further back than the expiry is still
/// present after pruning; refreshed at any interval up to the expiry, it
/// stays present for as long as the refreshes go on.
pub proof fn lemma_refreshed_peer_stays(
    m: Map<Seq<char>, (NodeView, u64)>,
    node: NodeView,
    seen: u64,
    now: u64,
)
    requires
        now <= seen || now - seen <= EXPIRY_MILLIS,
    ensures
        fresh_at(m.insert(node.id, (node, seen)), now).contains_key(node.id),
        fresh_at(m.insert(node.id, (node, seen)), now)[node.id] == (node, seen),
{
}

/// A peer not refreshed for longer than the expiry is gone after pruning.
pub proof fn lemma_stale_peer_dropped(m: Map<Seq<char>, (NodeView, u64)>, id: Seq<char>, now: u64)
    requires
        m.contains_key(id),
        now > m[id].1,
        now - m[id].1 > EXPIRY_MILLIS,
    ensures
        !fresh_at(m, now).contains_key(id),
{
}

/// A service-discovery property as plain values: its key and its raw value,
/// if it has one.
pub open spec fn property_views(p: Seq<(String, Option<Vec<u8>>)>) -> Seq<(Seq<char>, Option<Seq<u8>>)> {
    p.map_values(
        |e: (String, Option<Vec<u8>>)|
            (
                e.0@,
                match e.1 {
                    Some(v) => Some(v@),
                    None => None,
                },
            ),
    )
}

/// The text value of property `key`: the last property with that key whose
/// value is valid UTF-8; properties without a value or with other bytes are
/// passed over.
pub open spec fn property_text(p: Seq<(Seq<char>, Option<Seq<u8>>)>, key: Seq<char>) -> Option<Seq<char>>
    decreases p.len(),
{
    if p.len() == 0 {
        None
    } else {
        let e = p.last();
        if e.0 == key && e.1 is Some && valid_utf8(e.1->0) {
            Some(decode_utf8(e.1->0))
        } else {
            property_text(p.drop_last(), key)
        }
    }
}

/// The text value of property `key`, as `property_text` describes it.
pub fn lookup_property(props: &Vec<(String, Option<Vec<u8>>)>, key: &str) -> (r: Option<String>)
    ensures
        r is Some <==> property_text(property_views(props@), key@) is Some,
        r is Some ==> r->0@ == property_text(property_views(props@), key@)->0,
{
    let wanted = String::from_str(key);
    let mut i: usize = props.len();
    let ghost pv = property_views(props@);
    assert(pv.subrange(0, i as int) =~= pv);
    while i > 0
        invariant
            i <= props@.len(),
            pv == property_views(props@),
            wanted@ == key@,
            property_text(pv, key@) == property_text(pv.subrange(0, i as int), key@),
        decreases i,
    {
        let ghost sub = pv.subrange(0, i as int);
        assert(sub.drop_last() =~= pv.subrange(0, i - 1));
        assert(sub.last() == pv[i - 1]);
        if props[i - 1].0 == wanted {
            match &props[i - 1].1 {
                Some(v) => {
                    let bytes = copy_range(v.as_slice(), 0, v.len());
                    assert(bytes@ =~= v@);
                    match text_from_utf8(bytes) {
                        Some(t) => {
                            return Some(t);
                        },
                        None => {},
                    }
                },
                None => {},
            }
        }
        i = i - 1;
    }
    assert(pv.subrange(0, 0) =~= Seq::<(Seq<char>, Option<Seq<u8>>)>::empty());
    None
}

/// The node that an advertisement describes, when it has an address and
/// all of the properties `id`, `name`, `interface_type`, `capabilities`
/// (comma-separated) and `version`.
pub open spec fn node_from_advertisement(
    address: Option<Seq<char>>,
    port: u16,
    p: Seq<(Seq<char>, Option<Seq<u8>>)>,
) -> Option<NodeView> {
    if address is Some && property_text(p, "id"@) is Some && property_text(p, "name"@) is Some
        && property_text(p, "interface_type"@) is Some && property_text(p, "capabilities"@) is Some
        && property_text(p, "version"@) is Some {
        Some(
            NodeView {
                id: property_text(p, "id"@)->0,
                name: property_text(p, "name"@)->0,
                ip: address->0,
                port,
                interface_type: property_text(p, "interface_type"@)->0,
                capabilities: split_on(property_text(p, "capabilities"@)->0, ','),
                version: property_text(p, "version"@)->0,
            },
        )
    } else {
        None
    }
}

impl NodeInfo {
    /// Reads a peer's identity from a resolved advertisement: its first
    /// address, its port and its properties. A missing address or property
    /// gives none, so a malformed peer stays invisible.
    pub fn from_service_info(
        address: Option<String>,
        port: u16,
        properties: &Vec<(String, Option<Vec<u8>>)>,
    ) -> (r: Option<NodeInfo>)
        ensures
            r is Some <==> node_from_advertisement(
                match address {
                    Some(a) => Some(a@),
                    None => None,
                },
                port,
                property_views(properties@),
            ) is Some,
            r is Some ==> r->0@ == node_from_advertisement(
                match address {
                    Some(a) => Some(a@),
                    None => None,
                },
                port,
                property_views(properties@),
            )->0,
    {
        let ip = match address {
            Some(a) => a,
            None => return None,
        };
        let id = match lookup_property(properties, "id") {
            Some(t) => t,
            None => return None,
        };
        let name = match lookup_property(properties, "name") {
            Some(t) => t,
            None => return None,
        };
        let interface_type = match lookup_property(properties, "interface_type") {
            Some(t) => t,
            None => return None,
        };
        let caps = match lookup_property(properties, "capabilities") {
            Some(t) => t,
            None => return None,
        };
        let version = match lookup_property(properties, "version") {
            Some(t) => t,
            None => return None,
        };
        let capabilities = split_text(caps.as_str(), ',');
        Some(NodeInfo { id, name, ip, port, interface_type, capabilities, version })
    }
}

/// The properties a node advertises: `id`, `name`, `interface_type`,
/// `capabilities` joined with commas, and `version`, in that order.
pub open spec fn advertised_properties(n: NodeView) -> Seq<(Seq<char>, Seq<char>)> {
    seq![
        ("id"@, n.id),
        ("name"@, n.name),
        ("interface_type"@, n.interface_type),
        ("capabilities"@, join_with(n.capabilities, ',')),
        ("version"@, n.version),
    ]
}

/// The properties of `node`'s advertisement, as `advertised_properties`
/// lists them.
pub fn advertisement_properties(node: &NodeInfo) -> (r: Vec<(String, String)>)
    ensures
        r@.map_values(|e: (String, String)| (e.0@, e.1@)) == advertised_properties(node@),
{
    let mut out: Vec<(String, String)> = Vec::new();
    out.push((String::from_str("id"), node.id.clone()));
    out.push((String::from_str("name"), node.name.clone()));
    out.push((String::from_str("interface_type"), node.interface_type.clone()));
    out.push((String::from_str("capabilities"), join_commas(&node.capabilities)));
    out.push((String::from_str("version"), node.version.clone()));
    assert(out@.map_values(|e: (String, String)| (e.0@, e.1@)) =~= advertised_properties(node@));
    out
}

/// The host name a node advertises: its address followed by `.local.`.
pub fn advertised_host_name(ip: &String) -> (r: String)
    ensures
        r@ == ip@ + ".local."@,
{
    let mut h = ip.clone();
    h.append(".local.");
    h
}

/// A service instance name that stays unique when several nodes share a
/// human-readable name: the name, `_`, and a fresh random identifier.
pub fn unique_service_name(node_name: &str) -> (r: String)
    ensures
        r@.len() == node_name@.len() + 37,
        r@.subrange(0, node_name@.len() as int) == node_name@,
        r@[node_name@.len() as int] == '_',
        is_uuid_text(r@.subrange(node_name@.len() + 1int, r@.len() as int)),
{
    let mut s = String::from_str(node_name);
    proof {
        reveal_strlit("_");
    }
    s.append("_");
    let id = new_identifier();
    s.append(id.as_str());
    assert(s@.subrange(0, node_name@.len() as int) =~= node_name@);
    assert(s@.subrange(node_name@.len() + 1int, s@.len() as int) =~= id@);
    s
}

} // verus!
