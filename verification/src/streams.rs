//! What the PipeWire thread knows of application output streams, and which of
//! them a command from the action reaches.
//!
//! Node ids and client ids are PipeWire global ids. Each node records whether
//! it is an application output stream, the application's name, the PID that
//! the node itself exposes, the client that owns it, and its mute state.

use std::collections::HashMap;
use vstd::prelude::*;
use vstd::std_specs::iter::IteratorSpec;

verus! {

broadcast use vstd::std_specs::hash::group_hash_axioms;

/// One PipeWire node as the backend tracks it.
pub struct NodeInfo {
    /// An application output stream (`media.class` is `Stream/Output/Audio`
    /// and `application.name` is present).
    pub is_stream: bool,
    /// The node's `application.name`.
    pub app_name: Option<String>,
    /// The PID that the node exposes directly (`application.process.id`).
    pub process_id: Option<u32>,
    /// The PipeWire client that owns the node (`client.id`).
    pub client_id: Option<u32>,
    /// The node's current mute state.
    pub mute: bool,
}

/// The media class of an application's playback stream.
pub open spec fn stream_media_class() -> Seq<char> {
    seq!['S', 't', 'r', 'e', 'a', 'm', '/', 'O', 'u', 't', 'p', 'u', 't', '/', 'A', 'u', 'd', 'i', 'o']
}

fn is_stream_media_class(media_class: &str) -> (b: bool)
    ensures
        b == (media_class@ == stream_media_class()),
{
    let chars = crate::text::chars_of(media_class);
    let expected = [
        'S', 't', 'r', 'e', 'a', 'm', '/', 'O', 'u', 't', 'p', 'u', 't', '/', 'A', 'u', 'd', 'i', 'o',
    ];
    if chars.len() != 19 {
        proof {
            assert(stream_media_class().len() == 19);
        }
        return false;
    }
    let mut i: usize = 0;
    while i < 19
        invariant
            chars@ == media_class@,
            chars@.len() == 19,
            expected@ == stream_media_class(),
            i <= 19,
            forall|k: int| 0 <= k < i ==> chars@[k] == expected@[k],
        decreases 19 - i,
    {
        if chars[i] != expected[i] {
            return false;
        }
        i = i + 1;
    }
    proof {
        assert(chars@ == expected@);
    }
    true
}

/// The node announced by the registry with these properties; it starts
/// unmuted.
pub fn announced_node(
    media_class: Option<&str>,
    app_name: Option<String>,
    process_id: Option<u32>,
    client_id: Option<u32>,
) -> (node: NodeInfo)
    ensures
        node.is_stream == (app_name is Some && match media_class {
            Some(m) => m@ == stream_media_class(),
            None => false,
        }),
        node.app_name == app_name,
        node.process_id == process_id,
        node.client_id == client_id,
        !node.mute,
{
    let class_matches = match media_class {
        Some(m) => is_stream_media_class(m),
        None => false,
    };
    let is_stream = class_matches && app_name.is_some();
    NodeInfo { is_stream, app_name, process_id, client_id, mute: false }
}

/// `-ENOENT`: the object a request touched had already gone.
pub open spec fn errno_no_such_object() -> int {
    -2
}

/// A fatal error on the PipeWire core object means the daemon went away and
/// the backend must reconnect. `-ENOENT` on the core only says that a node
/// vanished mid-bind (or the session manager hid it); the connection is
/// healthy then, and reconnecting would replay the same race forever.
pub fn core_error_means_disconnect(object_id: u32, core_id: u32, res: i32) -> (b: bool)
    ensures
        b == (object_id == core_id && res != errno_no_such_object()),
{
    object_id == core_id && res != -2
}

/// The PID that a node belongs to: the one it exposes itself, else the one
/// recorded for the client that owns it.
pub open spec fn node_pid_of(node: NodeInfo, clients: Map<u32, u32>) -> Option<u32> {
    match node.process_id {
        Some(p) => Some(p),
        None => match node.client_id {
            Some(c) => if clients.contains_key(c) {
                Some(clients[c])
            } else {
                None
            },
            None => None,
        },
    }
}

/// The nodes and clients that the PipeWire thread currently knows.
pub struct StreamRegistry {
    nodes: HashMap<u32, NodeInfo>,
    clients: HashMap<u32, u32>,
}

/// An application seen through its output streams: all streams whose
/// application name is not empty and that belong to one PID.
pub struct AppGroup {
    pub pid: u32,
    /// The application name of one of the streams.
    pub name: String,
    /// The node ids of all the streams.
    pub nodes: Vec<u32>,
    /// Every one of the streams is muted.
    pub mute: bool,
}

impl StreamRegistry {
    /// Known nodes by node id.
    pub closed spec fn nodes(&self) -> Map<u32, NodeInfo> {
        self.nodes@
    }

    /// OS process id by PipeWire client id.
    pub closed spec fn clients(&self) -> Map<u32, u32> {
        self.clients@
    }

    /// Mute commands for `pids` reach the same streams before and after
    /// `later`, and in `later` each of them carries the mute state `m`,
    /// which a toggle then turns around.
    pub open spec fn reports_mute(&self, later: &StreamRegistry, pids: Seq<u32>, m: bool) -> bool {
        &&& later.clients() == self.clients()
        &&& later.nodes().dom() == self.nodes().dom()
        &&& forall|id: u32|
            #[trigger] later.nodes().contains_key(id) ==> later.nodes()[id] == (if self.is_target(pids, id) {
                NodeInfo { mute: m, ..self.nodes()[id] }
            } else {
                self.nodes()[id]
            })
    }

    /// The node with id `id` is an application output stream belonging to `pid`.
    pub open spec fn is_stream_of(&self, id: u32, pid: u32) -> bool {
        &&& self.nodes().contains_key(id)
        &&& self.nodes()[id].is_stream
        &&& node_pid_of(self.nodes()[id], self.clients()) == Some(pid)
    }

    /// Some application output stream belongs to `pid`.
    pub open spec fn has_stream_of(&self, pid: u32) -> bool {
        exists|id: u32| #[trigger] self.is_stream_of(id, pid)
    }

    /// The PIDs that a command for the candidate list `pids` reaches: the
    /// first PID alone when it owns a stream, otherwise every listed PID.
    pub open spec fn selects(&self, pids: Seq<u32>, pid: u32) -> bool {
        if pids.len() > 0 && self.has_stream_of(pids[0]) {
            pid == pids[0]
        } else {
            pids.contains(pid)
        }
    }

    /// The node `id` is one that a command for `pids` acts on.
    pub open spec fn is_target(&self, pids: Seq<u32>, id: u32) -> bool {
        exists|pid: u32| #[trigger] self.is_stream_of(id, pid) && self.selects(pids, pid)
    }

    /// Every stream that a command for `pids` reaches is muted, and there is one.
    pub open spec fn targets_all_muted(&self, pids: Seq<u32>) -> bool {
        &&& exists|id: u32| #[trigger] self.is_target(pids, id)
        &&& forall|id: u32| #[trigger] self.is_target(pids, id) ==> self.nodes()[id].mute
    }

    /// The mute state that a mute command with `value` sets: `value` itself,
    /// or for a toggle the opposite of "all reached streams are muted".
    pub open spec fn mute_to_set(&self, pids: Seq<u32>, value: Option<bool>) -> bool {
        match value {
            Some(v) => v,
            None => !self.targets_all_muted(pids),
        }
    }

    /// The node `id` is a stream with a non-empty application name that
    /// belongs to `pid`; such streams make up the application of `pid`.
    pub open spec fn is_app_stream_of(&self, id: u32, pid: u32) -> bool {
        &&& self.is_stream_of(id, pid)
        &&& self.nodes()[id].app_name matches Some(name) && name@.len() > 0
    }

    pub fn new() -> (r: StreamRegistry)
        ensures
            r.nodes() == Map::<u32, NodeInfo>::empty(),
            r.clients() == Map::<u32, u32>::empty(),
    {
        StreamRegistry { nodes: HashMap::new(), clients: HashMap::new() }
    }

    /// Record a node announced by the registry (replacing one with that id).
    pub fn insert_node(&mut self, id: u32, node: NodeInfo)
        ensures
            final(self).nodes() == old(self).nodes().insert(id, node),
            final(self).clients() == old(self).clients(),
    {
        self.nodes.insert(id, node);
    }

    /// Record the OS process id of a PipeWire client.
    pub fn set_client_pid(&mut self, client: u32, pid: u32)
        ensures
            final(self).nodes() == old(self).nodes(),
            final(self).clients() == old(self).clients().insert(client, pid),
    {
        self.clients.insert(client, pid);
    }

    /// A node's info event: a PID it now exposes replaces the recorded one;
    /// no PID leaves the node as it is.
    pub fn set_node_process_id(&mut self, id: u32, pid: Option<u32>)
        ensures
            final(self).clients() == old(self).clients(),
            final(self).nodes() == (match pid {
                Some(p) => if old(self).nodes().contains_key(id) {
                    old(self).nodes().insert(
                        id,
                        NodeInfo { process_id: Some(p), ..old(self).nodes()[id] },
                    )
                } else {
                    old(self).nodes()
                },
                None => old(self).nodes(),
            }),
    {
        if let Some(p) = pid {
            if let Some(mut node) = self.nodes.remove(&id) {
                node.process_id = Some(p);
                self.nodes.insert(id, node);
            }
        }
    }

    /// A node's Props: a reported mute state replaces the recorded one.
    pub fn set_node_mute(&mut self, id: u32, mute: Option<bool>)
        ensures
            final(self).clients() == old(self).clients(),
            final(self).nodes() == (match mute {
                Some(m) => if old(self).nodes().contains_key(id) {
                    old(self).nodes().insert(id, NodeInfo { mute: m, ..old(self).nodes()[id] })
                } else {
                    old(self).nodes()
                },
                None => old(self).nodes(),
            }),
    {
        if let Some(m) = mute {
            if let Some(mut node) = self.nodes.remove(&id) {
                node.mute = m;
                self.nodes.insert(id, node);
            }
        }
    }

    /// A global object went away: forget the node and the client with that id.
    pub fn remove_global(&mut self, id: u32)
        ensures
            final(self).nodes() == old(self).nodes().remove(id),
            final(self).clients() == old(self).clients().remove(id),
    {
        self.nodes.remove(&id);
        self.clients.remove(&id);
    }

    /// The connection to PipeWire was lost: forget everything.
    pub fn reset(&mut self)
        ensures
            final(self).nodes() == Map::<u32, NodeInfo>::empty(),
            final(self).clients() == Map::<u32, u32>::empty(),
    {
        self.nodes.clear();
        self.clients.clear();
    }

    /// The PID that `node` belongs to.
    pub fn node_pid(&self, node: &NodeInfo) -> (r: Option<u32>)
        ensures
            r == node_pid_of(*node, self.clients()),
    {
        match node.process_id {
            Some(p) => Some(p),
            None => match node.client_id {
                Some(c) => match self.clients.get(&c) {
                    Some(p) => Some(*p),
                    None => None,
                },
                None => None,
            },
        }
    }

    /// Some application output stream belongs to `pid`.
    pub fn has_stream(&self, pid: u32) -> (b: bool)
        ensures
            b == self.has_stream_of(pid),
            b == exists|id: u32|
                #![trigger self.nodes()[id]]
                self.nodes().contains_key(id) && self.nodes()[id].is_stream && node_pid_of(
                    self.nodes()[id],
                    self.clients(),
                ) == Some(pid),
    {
        let ghost pairs = vstd::std_specs::hash::spec_hash_map_iter(&self.nodes).remaining();
        for (id, node) in it: self.nodes.iter()
            invariant
                it.seq() == pairs,
                forall|j: int|
                    0 <= j < it.index() ==> !self.is_stream_of(*#[trigger] pairs[j].0, pid),
        {
            let ghost j = it.index();
            proof {
                assert(pairs[j] == (id, node));
                assert(self.nodes@.contains_key(*pairs[j].0));
            }
            if node.is_stream {
                if let Some(p) = self.node_pid(node) {
                    if p == pid {
                        proof {
                            assert(self.is_stream_of(*id, pid));
                            assert(self.nodes().contains_key(*id) && self.nodes()[*id].is_stream
                                && node_pid_of(self.nodes()[*id], self.clients()) == Some(pid));
                        }
                        return true;
                    }
                }
            }
        }
        proof {
            assert forall|id: u32| !#[trigger] self.is_stream_of(id, pid) by {
                if self.nodes@.contains_key(id) {
                    assert(pairs.contains((&id, &self.nodes@[id])));
                    let k = choose|k: int| 0 <= k < pairs.len() && pairs[k] == (&id, &self.nodes@[id]);
                    assert(*pairs[k].0 == id);
                }
            }
            if exists|id: u32|
                #![trigger self.nodes()[id]]
                self.nodes().contains_key(id) && self.nodes()[id].is_stream && node_pid_of(
                    self.nodes()[id],
                    self.clients(),
                ) == Some(pid) {
                let id = choose|id: u32|
                    #![trigger self.nodes()[id]]
                    self.nodes().contains_key(id) && self.nodes()[id].is_stream && node_pid_of(
                        self.nodes()[id],
                        self.clients(),
                    ) == Some(pid);
                assert(self.is_stream_of(id, pid));
            }
        }
        false
    }

    /// The node ids that a command for the candidate list `pids` acts on,
    /// each once.
    pub fn targets(&self, pids: &[u32]) -> (r: Vec<u32>)
        ensures
            r@.no_duplicates(),
            forall|id: u32| r@.contains(id) <==> self.is_target(pids@, id),
            forall|id: u32|
                #[trigger] r@.contains(id) ==> self.nodes().contains_key(id) && self.nodes()[id].is_stream
                    && exists|p: u32|
                    node_pid_of(self.nodes()[id], self.clients()) == Some(p) && #[trigger] pids@.contains(p),
    {
        let exact = pids.len() > 0 && self.has_stream(pids[0]);
        let ghost pairs = vstd::std_specs::hash::spec_hash_map_iter(&self.nodes).remaining();
        let mut r: Vec<u32> = Vec::new();
        for (id, node) in it: self.nodes.iter()
            invariant
                it.seq() == pairs,
                pairs.no_duplicates(),
                exact == (pids@.len() > 0 && self.has_stream_of(pids@[0])),
                r@.no_duplicates(),
                forall|x: u32|
                    #[trigger] r@.contains(x) <==> exists|j: int|
                        0 <= j < it.index() && *pairs[j].0 == x && self.is_target(pids@, x),
        {
            let ghost j = it.index();
            proof {
                assert(pairs[j] == (id, node));
                assert(self.nodes@.contains_key(*pairs[j].0));
            }
            let mut hit = false;
            if node.is_stream {
                if let Some(p) = self.node_pid(node) {
                    hit = if exact {
                        p == pids[0]
                    } else {
                        slice_contains(pids, p)
                    };
                    proof {
                        assert(self.is_stream_of(*id, p));
                        if hit {
                            assert(self.selects(pids@, p));
                        } else {
                            assert forall|q: u32| #[trigger] self.is_stream_of(*id, q) implies !self.selects(pids@, q) by {
                                assert(q == p);
                            }
                        }
                    }
                }
            }
            proof {
                if !hit {
                    assert(!self.is_target(pids@, *id));
                }
                assert forall|k: int| 0 <= k < j implies *pairs[k].0 != *id by {
                    assert(self.nodes@.contains_key(*pairs[k].0));
                    if *pairs[k].0 == *id {
                        assert(pairs[k] == pairs[j]);
                    }
                }
            }
            let ghost before = r@;
            if hit {
                r.push(*id);
            }
            proof {
                assert forall|x: u32|
                    #[trigger] r@.contains(x) <==> exists|k: int|
                        0 <= k < j + 1 && *pairs[k].0 == x && self.is_target(pids@, x) by {
                    if r@.contains(x) {
                        if before.contains(x) {
                            let k = choose|k: int| 0 <= k < j && *pairs[k].0 == x && self.is_target(pids@, x);
                        } else {
                            assert(x == *id);
                            assert(*pairs[j].0 == x);
                        }
                    }
                    if exists|k: int| 0 <= k < j + 1 && *pairs[k].0 == x && self.is_target(pids@, x) {
                        let k = choose|k: int| 0 <= k < j + 1 && *pairs[k].0 == x && self.is_target(pids@, x);
                        if k < j {
                            assert(before.contains(x));
                            let i = choose|i: int| 0 <= i < before.len() && before[i] == x;
                            assert(r@[i] == x);
                        } else {
                            assert(r@[r@.len() - 1] == x);
                        }
                    }
                }
                assert(r@.no_duplicates()) by {
                    if hit {
                        assert(!before.contains(*id));
                        assert forall|a: int, b: int| 0 <= a < b < r@.len() implies r@[a] != r@[b] by {
                            if b == r@.len() - 1 {
                                assert(before.contains(r@[a]));
                            }
                        }
                    }
                }
            }
        }
        proof {
            assert forall|x: u32| self.is_target(pids@, x) implies #[trigger] r@.contains(x) by {
                assert(self.nodes@.contains_key(x));
                assert(pairs.contains((&x, &self.nodes@[x])));
                let k = choose|k: int| 0 <= k < pairs.len() && pairs[k] == (&x, &self.nodes@[x]);
            }
            assert forall|id: u32|
                #[trigger] r@.contains(id) implies self.nodes().contains_key(id) && self.nodes()[id].is_stream
                    && exists|p: u32|
                    node_pid_of(self.nodes()[id], self.clients()) == Some(p) && #[trigger] pids@.contains(p) by {
                let p = choose|p: u32| #[trigger] self.is_stream_of(id, p) && self.selects(pids@, p);
                if pids@.len() > 0 && self.has_stream_of(pids@[0]) {
                    assert(pids@[0] == p);
                }
                assert(pids@.contains(p));
            }
        }
        r
    }

    /// A mute command for `pids` with `value` (`None` toggles): the nodes it
    /// acts on and the mute state it gives them.
    pub fn mute_command(&self, pids: &[u32], value: Option<bool>) -> (r: (Vec<u32>, bool))
        ensures
            r.0@.no_duplicates(),
            forall|id: u32| r.0@.contains(id) <==> self.is_target(pids@, id),
            r.1 == self.mute_to_set(pids@, value),
            forall|id: u32| #[trigger] r.0@.contains(id) ==> self.nodes()[id].is_stream,
            value is Some ==> r.1 == value->0,
            value is None ==> (r.1 <==> !(r.0@.len() > 0 && forall|k: int|
                0 <= k < r.0@.len() ==> self.nodes()[#[trigger] r.0@[k]].mute)),
    {
        let targets = self.targets(pids);
        let mut all_muted = targets.len() > 0;
        let mut i: usize = 0;
        while i < targets.len()
            invariant
                i <= targets@.len(),
                forall|id: u32| targets@.contains(id) <==> self.is_target(pids@, id),
                all_muted == (targets@.len() > 0 && forall|k: int|
                    0 <= k < i ==> self.nodes()[#[trigger] targets@[k]].mute),
            decreases targets@.len() - i,
        {
            let id = targets[i];
            proof {
                assert(targets@.contains(id));
            }
            match self.nodes.get(&id) {
                Some(node) => {
                    if !node.mute {
                        all_muted = false;
                    }
                },
                None => {},
            }
            proof {
                assert(self.nodes@.contains_key(id));
            }
            i = i + 1;
        }
        proof {
            if targets@.len() > 0 {
                assert(targets@.contains(targets@[0]));
                assert(self.is_target(pids@, targets@[0]));
            }
            if all_muted {
                assert forall|id: u32| #[trigger] self.is_target(pids@, id) implies self.nodes()[id].mute by {
                    assert(targets@.contains(id));
                    let k = choose|k: int| 0 <= k < targets@.len() && targets@[k] == id;
                }
            } else if targets@.len() > 0 {
                let k = choose|k: int| 0 <= k < targets@.len() && !self.nodes()[targets@[k]].mute;
                assert(targets@.contains(targets@[k]));
            } else {
                assert forall|id: u32| !#[trigger] self.is_target(pids@, id) by {
                    if self.is_target(pids@, id) {
                        assert(targets@.contains(id));
                    }
                }
            }
        }
        let mute = match value {
            Some(v) => v,
            None => !all_muted,
        };
        (targets, mute)
    }

    /// The applications that own output streams, one group per PID: for the
    /// state published to the actions (name, mean volume, all muted).
    pub fn app_groups(&self) -> (groups: Vec<AppGroup>)
        ensures
            forall|i: int, j: int| 0 <= i < j < groups@.len() ==> groups@[i].pid != groups@[j].pid,
            forall|id: u32, p: u32|
                #[trigger] self.is_app_stream_of(id, p) ==> exists|i: int|
                    0 <= i < groups@.len() && #[trigger] groups@[i].pid == p,
            forall|i: int|
                #![trigger groups@[i]]
                0 <= i < groups@.len() ==> {
                    let g = groups@[i];
                    &&& g.nodes@.no_duplicates()
                    &&& forall|id: u32| #[trigger] g.nodes@.contains(id) <==> self.is_app_stream_of(id, g.pid)
                    &&& exists|id: u32| #[trigger] self.is_app_stream_of(id, g.pid) && self.nodes()[id].app_name == Some(g.name)
                    &&& g.mute == (forall|id: u32| #[trigger] self.is_app_stream_of(id, g.pid) ==> self.nodes()[id].mute)
                },
    {
        let ghost pairs = vstd::std_specs::hash::spec_hash_map_iter(&self.nodes).remaining();
        let mut groups: Vec<AppGroup> = Vec::new();
        for (id, node) in it: self.nodes.iter()
            invariant
                it.seq() == pairs,
                pairs.no_duplicates(),
                forall|i: int, j: int| 0 <= i < j < groups@.len() ==> groups@[i].pid != groups@[j].pid,
                forall|x: u32, p: u32|
                    #[trigger] self.is_app_stream_of(x, p) && seen_key(pairs, it.index(), x) ==> exists|i: int|
                        0 <= i < groups@.len() && #[trigger] groups@[i].pid == p,
                forall|i: int| 0 <= i < groups@.len() ==> group_covers(self, #[trigger] groups@[i], pairs, it.index()),
        {
            let ghost j = it.index();
            let ghost old_groups = groups@;
            proof {
                assert(pairs[j] == (id, node));
                assert(self.nodes@.contains_key(*pairs[j].0));
                assert forall|k: int| 0 <= k < j implies *pairs[k].0 != *id by {
                    assert(self.nodes@.contains_key(*pairs[k].0));
                    if *pairs[k].0 == *id {
                        assert(pairs[k] == pairs[j]);
                    }
                }
                assert(!seen_key(pairs, j, *id));
                assert forall|x: u32| seen_key(pairs, j + 1, x) <==> (seen_key(pairs, j, x) || x == *id) by {
                    if x == *id {
                        assert(*pairs[j].0 == x);
                    }
                    if seen_key(pairs, j, x) {
                        let k = choose|k: int| 0 <= k < j && *pairs[k].0 == x;
                        assert(0 <= k < j + 1 && *pairs[k].0 == x);
                    }
                }
            }
            let mut member: Option<u32> = None;
            if node.is_stream {
                if let Some(name) = &node.app_name {
                    if !name.as_str().is_empty() {
                        member = self.node_pid(node);
                    }
                }
            }
            proof {
                assert forall|q: u32| #[trigger] self.is_app_stream_of(*id, q) <==> member == Some(q) by {}
            }
            match member {
                None => {
                    proof {
                        assert forall|i: int| 0 <= i < groups@.len() implies group_covers(self, #[trigger] groups@[i], pairs, j + 1) by {
                            lemma_cover_extends(self, groups@[i], pairs, j, *id);
                        }
                        assert forall|x: u32, p: u32|
                            #[trigger] self.is_app_stream_of(x, p) && seen_key(pairs, j + 1, x) implies exists|i: int|
                                0 <= i < groups@.len() && #[trigger] groups@[i].pid == p by {
                            assert(x != *id);
                            assert(self.is_app_stream_of(x, p) && seen_key(pairs, j, x));
                        }
                    }
                },
                Some(p) => {
                    let found = find_group(&groups, p);
                    match found {
                        Some(k) => {
                            let mut g = groups.remove(k);
                            g.nodes.push(*id);
                            g.mute = g.mute && node.mute;
                            groups.insert(k, g);
                            proof {
                                let g0 = old_groups[k as int];
                                assert(groups@ == old_groups.update(k as int, g));
                                assert(self.nodes()[*id] == *node);
                                assert forall|i: int| 0 <= i < groups@.len() && i != k implies group_covers(self, #[trigger] groups@[i], pairs, j + 1) by {
                                    assert(groups@[i] == old_groups[i]);
                                    assert(old_groups[i].pid != p);
                                    lemma_cover_extends(self, groups@[i], pairs, j, *id);
                                }
                                assert(group_covers(self, g0, pairs, j));
                                assert(!g0.nodes@.contains(*id));
                                assert(g.nodes@.no_duplicates()) by {
                                    assert forall|a: int, b: int| 0 <= a < b < g.nodes@.len() implies g.nodes@[a] != g.nodes@[b] by {
                                        if b == g.nodes@.len() - 1 {
                                            assert(g0.nodes@.contains(g.nodes@[a]));
                                        } else {
                                            assert(g.nodes@[a] == g0.nodes@[a] && g.nodes@[b] == g0.nodes@[b]);
                                        }
                                    }
                                }
                                assert forall|x: u32| #[trigger] g.nodes@.contains(x) <==> (seen_key(pairs, j + 1, x) && self.is_app_stream_of(x, g.pid)) by {
                                    assert(g.pid == p);
                                    if g.nodes@.contains(x) && x != *id {
                                        let a = choose|a: int| 0 <= a < g.nodes@.len() && g.nodes@[a] == x;
                                        assert(g0.nodes@[a] == x);
                                        assert(g0.nodes@.contains(x));
                                    }
                                    if x == *id {
                                        assert(g.nodes@[g.nodes@.len() - 1] == x);
                                    } else if seen_key(pairs, j, x) && self.is_app_stream_of(x, g.pid) {
                                        assert(g0.nodes@.contains(x));
                                        let a = choose|a: int| 0 <= a < g0.nodes@.len() && g0.nodes@[a] == x;
                                        assert(g.nodes@[a] == x);
                                    }
                                }
                                let w = choose|w: u32| #[trigger] self.is_app_stream_of(w, g0.pid) && seen_key(pairs, j, w) && self.nodes()[w].app_name == Some(g0.name);
                                assert(self.is_app_stream_of(w, g.pid) && seen_key(pairs, j + 1, w) && self.nodes()[w].app_name == Some(g.name));
                                assert(g.mute == (forall|x: u32| #[trigger] self.is_app_stream_of(x, g.pid) && seen_key(pairs, j + 1, x) ==> self.nodes()[x].mute)) by {
                                    if g.mute {
                                        assert forall|x: u32| #[trigger] self.is_app_stream_of(x, g.pid) && seen_key(pairs, j + 1, x) implies self.nodes()[x].mute by {
                                            if x != *id {
                                                assert(self.is_app_stream_of(x, g0.pid) && seen_key(pairs, j, x));
                                            }
                                        }
                                    } else if !node.mute {
                                        assert(self.is_app_stream_of(*id, g.pid) && seen_key(pairs, j + 1, *id));
                                    } else {
                                        let x = choose|x: u32| #[trigger] self.is_app_stream_of(x, g0.pid) && seen_key(pairs, j, x) && !self.nodes()[x].mute;
                                        assert(self.is_app_stream_of(x, g.pid) && seen_key(pairs, j + 1, x));
                                    }
                                }
                                assert(group_covers(self, groups@[k as int], pairs, j + 1));
                                assert forall|x: u32, q: u32|
                                    #[trigger] self.is_app_stream_of(x, q) && seen_key(pairs, j + 1, x) implies exists|i: int|
                                        0 <= i < groups@.len() && #[trigger] groups@[i].pid == q by {
                                    if x == *id {
                                        assert(groups@[k as int].pid == q);
                                    } else {
                                        assert(self.is_app_stream_of(x, q) && seen_key(pairs, j, x));
                                        let i = choose|i: int| 0 <= i < old_groups.len() && #[trigger] old_groups[i].pid == q;
                                        assert(groups@[i].pid == q);
                                    }
                                }
                            }
                        },
                        None => {
                            let mut nodes: Vec<u32> = Vec::new();
                            nodes.push(*id);
                            let name = match &node.app_name {
                                Some(n) => n.clone(),
                                None => String::new(),
                            };
                            let ghost fresh = AppGroup { pid: p, name, nodes, mute: node.mute };
                            groups.push(AppGroup { pid: p, name, nodes, mute: node.mute });
                            proof {
                                assert(self.nodes()[*id] == *node);
                                assert(groups@ == old_groups.push(fresh));
                                assert forall|i: int| 0 <= i < old_groups.len() implies group_covers(self, #[trigger] groups@[i], pairs, j + 1) by {
                                    assert(groups@[i] == old_groups[i]);
                                    lemma_cover_extends(self, groups@[i], pairs, j, *id);
                                }
                                assert forall|x: u32| #[trigger] fresh.nodes@.contains(x) <==> (seen_key(pairs, j + 1, x) && self.is_app_stream_of(x, p)) by {
                                    if fresh.nodes@.contains(x) {
                                        assert(fresh.nodes@[0] == x);
                                    }
                                    if x == *id {
                                        assert(fresh.nodes@[0] == x);
                                    } else if seen_key(pairs, j, x) && self.is_app_stream_of(x, p) {
                                        let i = choose|i: int| 0 <= i < old_groups.len() && #[trigger] old_groups[i].pid == p;
                                    }
                                }
                                assert(self.is_app_stream_of(*id, p) && seen_key(pairs, j + 1, *id) && self.nodes()[*id].app_name == Some(fresh.name));
                                assert(fresh.mute == (forall|x: u32| #[trigger] self.is_app_stream_of(x, p) && seen_key(pairs, j + 1, x) ==> self.nodes()[x].mute)) by {
                                    assert forall|x: u32| #[trigger] self.is_app_stream_of(x, p) && seen_key(pairs, j + 1, x) implies x == *id by {
                                        if x != *id {
                                            assert(self.is_app_stream_of(x, p) && seen_key(pairs, j, x));
                                            let i = choose|i: int| 0 <= i < old_groups.len() && #[trigger] old_groups[i].pid == p;
                                        }
                                    }
                                }
                                assert(fresh.nodes@.no_duplicates());
                                assert(groups@[old_groups.len() as int] == fresh);
                                assert(fresh.pid == p);
                                assert(forall|x: u32| #[trigger] fresh.nodes@.contains(x) <==> (seen_key(pairs, j + 1, x) && self.is_app_stream_of(x, fresh.pid)));
                                assert(exists|x: u32| #[trigger] self.is_app_stream_of(x, fresh.pid) && seen_key(pairs, j + 1, x) && self.nodes()[x].app_name == Some(fresh.name));
                                assert(fresh.mute == (forall|x: u32| #[trigger] self.is_app_stream_of(x, fresh.pid) && seen_key(pairs, j + 1, x) ==> self.nodes()[x].mute));
                                assert(group_covers(self, groups@[old_groups.len() as int], pairs, j + 1));
                                assert forall|x: u32, q: u32|
                                    #[trigger] self.is_app_stream_of(x, q) && seen_key(pairs, j + 1, x) implies exists|i: int|
                                        0 <= i < groups@.len() && #[trigger] groups@[i].pid == q by {
                                    if x == *id {
                                        assert(groups@[old_groups.len() as int].pid == q);
                                    } else {
                                        assert(self.is_app_stream_of(x, q) && seen_key(pairs, j, x));
                                        let i = choose|i: int| 0 <= i < old_groups.len() && #[trigger] old_groups[i].pid == q;
                                        assert(groups@[i].pid == q);
                                    }
                                }
                            }
                        },
                    }
                },
            }
        }
        groups
    }
}

/// The first of the candidate `pids` that `known` has an entry for: the exact
/// focused PID when it has audio, else the first related PID that has.
pub fn first_known_pid<V>(known: &HashMap<u32, V>, pids: &[u32]) -> (r: Option<u32>)
    ensures
        match r {
            Some(p) => exists|i: int|
                0 <= i < pids@.len() && pids@[i] == p && known@.contains_key(p) && forall|k: int|
                    0 <= k < i ==> !known@.contains_key(#[trigger] pids@[k]),
            None => forall|i: int| 0 <= i < pids@.len() ==> !known@.contains_key(#[trigger] pids@[i]),
        },
{
    let mut i: usize = 0;
    while i < pids.len()
        invariant
            i <= pids@.len(),
            forall|k: int| 0 <= k < i ==> !known@.contains_key(#[trigger] pids@[k]),
        decreases pids@.len() - i,
    {
        if known.contains_key(&pids[i]) {
            return Some(pids[i]);
        }
        i = i + 1;
    }
    None
}

/// One of the first `n` pairs of `pairs` has key `id`.
spec fn seen_key(pairs: Seq<(&u32, &NodeInfo)>, n: int, id: u32) -> bool {
    exists|j: int| 0 <= j < n && *pairs[j].0 == id
}

/// `g` describes the application of `g.pid` as far as the streams among the
/// first `n` pairs tell.
spec fn group_covers(reg: &StreamRegistry, g: AppGroup, pairs: Seq<(&u32, &NodeInfo)>, n: int) -> bool {
    &&& g.nodes@.no_duplicates()
    &&& forall|id: u32| #[trigger] g.nodes@.contains(id) <==> (seen_key(pairs, n, id) && reg.is_app_stream_of(id, g.pid))
    &&& exists|id: u32| #[trigger] reg.is_app_stream_of(id, g.pid) && seen_key(pairs, n, id) && reg.nodes()[id].app_name == Some(g.name)
    &&& g.mute == (forall|id: u32| #[trigger] reg.is_app_stream_of(id, g.pid) && seen_key(pairs, n, id) ==> reg.nodes()[id].mute)
}

/// A group stays accurate when the next stream seen does not belong to it.
proof fn lemma_cover_extends(
    reg: &StreamRegistry,
    g: AppGroup,
    pairs: Seq<(&u32, &NodeInfo)>,
    j: int,
    id: u32,
)
    requires
        group_covers(reg, g, pairs, j),
        !reg.is_app_stream_of(id, g.pid),
        forall|x: u32| seen_key(pairs, j + 1, x) <==> (seen_key(pairs, j, x) || x == id),
    ensures
        group_covers(reg, g, pairs, j + 1),
{
    assert forall|x: u32| #[trigger] g.nodes@.contains(x) <==> (seen_key(pairs, j + 1, x) && reg.is_app_stream_of(x, g.pid)) by {
        if x == id {
            assert(!reg.is_app_stream_of(x, g.pid));
        }
    }
    let w = choose|w: u32| #[trigger] reg.is_app_stream_of(w, g.pid) && seen_key(pairs, j, w) && reg.nodes()[w].app_name == Some(g.name);
    assert(reg.is_app_stream_of(w, g.pid) && seen_key(pairs, j + 1, w));
    assert((forall|x: u32| #[trigger] reg.is_app_stream_of(x, g.pid) && seen_key(pairs, j + 1, x) ==> reg.nodes()[x].mute) == (forall|x: u32| #[trigger] reg.is_app_stream_of(x, g.pid) && seen_key(pairs, j, x) ==> reg.nodes()[x].mute));
}

/// The index of the group for `pid`, if there is one.
fn find_group(groups: &Vec<AppGroup>, pid: u32) -> (r: Option<usize>)
    ensures
        match r {
            Some(k) => k < groups@.len() && groups@[k as int].pid == pid,
            None => forall|i: int| 0 <= i < groups@.len() ==> groups@[i].pid != pid,
        },
{
    let mut i: usize = 0;
    while i < groups.len()
        invariant
            i <= groups@.len(),
            forall|k: int| 0 <= k < i ==> groups@[k].pid != pid,
        decreases groups@.len() - i,
    {
        if groups[i].pid == pid {
            return Some(i);
        }
        i = i + 1;
    }
    None
}

/// `pids` holds `p`.
fn slice_contains(pids: &[u32], p: u32) -> (b: bool)
    ensures
        b == pids@.contains(p),
{
    let mut i: usize = 0;
    while i < pids.len()
        invariant
            i <= pids@.len(),
            forall|k: int| 0 <= k < i ==> pids@[k] != p,
        decreases pids@.len() - i,
    {
        if pids[i] == p {
            proof {
                assert(pids@[i as int] == p);
            }
            return true;
        }
        i = i + 1;
    }
    false
}

/// A command reaches only application output streams. When the first
/// candidate PID owns an output stream, exactly the output streams of that PID
/// are reached; otherwise exactly the output streams of any candidate PID.
pub proof fn lemma_targets_exact_first(reg: &StreamRegistry, pids: Seq<u32>, id: u32)
    ensures
        reg.is_target(pids, id) ==> reg.nodes().contains_key(id) && reg.nodes()[id].is_stream,
        (pids.len() > 0 && exists|x: u32|
            #![trigger reg.nodes()[x]]
            reg.nodes().contains_key(x) && reg.nodes()[x].is_stream && node_pid_of(
                reg.nodes()[x],
                reg.clients(),
            ) == Some(pids[0])) ==> (reg.is_target(pids, id) <==> (reg.nodes().contains_key(id)
            && reg.nodes()[id].is_stream && node_pid_of(reg.nodes()[id], reg.clients()) == Some(
            pids[0],
        ))),
        !(pids.len() > 0 && exists|x: u32|
            #![trigger reg.nodes()[x]]
            reg.nodes().contains_key(x) && reg.nodes()[x].is_stream && node_pid_of(
                reg.nodes()[x],
                reg.clients(),
            ) == Some(pids[0])) ==> (reg.is_target(pids, id) <==> (reg.nodes().contains_key(id)
            && reg.nodes()[id].is_stream && exists|p: u32|
            node_pid_of(reg.nodes()[id], reg.clients()) == Some(p) && #[trigger] pids.contains(p))),
{
    let exact = pids.len() > 0 && exists|x: u32|
        #![trigger reg.nodes()[x]]
        reg.nodes().contains_key(x) && reg.nodes()[x].is_stream && node_pid_of(
            reg.nodes()[x],
            reg.clients(),
        ) == Some(pids[0]);
    if pids.len() > 0 {
        if exact {
            let x = choose|x: u32|
                #![trigger reg.nodes()[x]]
                reg.nodes().contains_key(x) && reg.nodes()[x].is_stream && node_pid_of(
                    reg.nodes()[x],
                    reg.clients(),
                ) == Some(pids[0]);
            assert(reg.is_stream_of(x, pids[0]));
        } else {
            if reg.has_stream_of(pids[0]) {
                let x = choose|x: u32| #[trigger] reg.is_stream_of(x, pids[0]);
                assert(reg.nodes().contains_key(x) && reg.nodes()[x].is_stream);
            }
        }
    }
    if reg.nodes().contains_key(id) && reg.nodes()[id].is_stream {
        if let Some(p) = node_pid_of(reg.nodes()[id], reg.clients()) {
            assert(reg.is_stream_of(id, p));
        }
    }
}

/// A toggle mutes unless there is a reached stream and every reached stream
/// is already muted; then it unmutes.
pub proof fn lemma_toggle_mutes_unless_all_muted(reg: &StreamRegistry, pids: Seq<u32>)
    ensures
        reg.mute_to_set(pids, None) == !((exists|id: u32| #[trigger] reg.is_target(pids, id))
            && forall|id: u32| #[trigger] reg.is_target(pids, id) ==> reg.nodes()[id].mute),
        (exists|id: u32| #[trigger] reg.is_target(pids, id) && !reg.nodes()[id].mute) ==> reg.mute_to_set(
            pids,
            None,
        ),
        forall|v: bool| reg.mute_to_set(pids, Some(v)) == v,
{
}

/// Toggling mute is undone by toggling again: once the streams that a mute
/// command for `pids` reached report the state `m` it set, the same command
/// reaches the same streams and a toggle sets `!m`.
pub proof fn lemma_toggle_after_report(
    before: &StreamRegistry,
    after: &StreamRegistry,
    pids: Seq<u32>,
    m: bool,
)
    requires
        before.reports_mute(after, pids, m),
        exists|id: u32| #[trigger] before.is_target(pids, id),
    ensures
        forall|id: u32| #[trigger] after.is_target(pids, id) == before.is_target(pids, id),
        after.mute_to_set(pids, None) == !m,
{
    assert forall|id: u32, p: u32| #[trigger] after.is_stream_of(id, p) == before.is_stream_of(id, p) by {
        if before.nodes().contains_key(id) {
            assert(after.nodes().contains_key(id));
        }
    }
    assert forall|p: u32| #[trigger] after.has_stream_of(p) == before.has_stream_of(p) by {
        if after.has_stream_of(p) {
            let id = choose|id: u32| #[trigger] after.is_stream_of(id, p);
            assert(before.is_stream_of(id, p));
        }
        if before.has_stream_of(p) {
            let id = choose|id: u32| #[trigger] before.is_stream_of(id, p);
            assert(after.is_stream_of(id, p));
        }
    }
    assert forall|id: u32| #[trigger] after.is_target(pids, id) == before.is_target(pids, id) by {
        if after.is_target(pids, id) {
            let p = choose|p: u32| #[trigger] after.is_stream_of(id, p) && after.selects(pids, p);
            assert(before.is_stream_of(id, p) && before.selects(pids, p));
        }
        if before.is_target(pids, id) {
            let p = choose|p: u32| #[trigger] before.is_stream_of(id, p) && before.selects(pids, p);
            assert(after.is_stream_of(id, p) && after.selects(pids, p));
        }
    }
    let w = choose|id: u32| #[trigger] before.is_target(pids, id);
    assert(after.is_target(pids, w));
    if m {
        assert forall|id: u32| #[trigger] after.is_target(pids, id) implies after.nodes()[id].mute by {
            assert(before.is_target(pids, id));
        }
    } else {
        assert(!after.nodes()[w].mute);
    }
}

} // verus!
