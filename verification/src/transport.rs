//! Registry of open transport connections, one per graph node id.

use vstd::prelude::*;

use crate::frame::{ConnectionState, TransportStats};

verus! {

/// What the registry keeps of an open connection: its connection state, the
/// test-data generator's running flag (`None` for transports that do not
/// generate data) and the traffic counters.
#[derive(Debug, Clone, Copy, PartialEq, Eq, Structural)]
pub struct TransportHandle {
    pub state: ConnectionState,
    pub test_data_running: Option<bool>,
    pub stats: TransportStats,
}

/// Connections by node id: each transport node of the graph has at most one.
#[derive(Debug)]
pub struct TransportManager {
    handles: Vec<(String, TransportHandle)>,
}

/// The map a list of (id, handle) entries describes.
pub open spec fn entries_map(s: Seq<(String, TransportHandle)>) -> Map<Seq<char>, TransportHandle>
    decreases s.len(),
{
    if s.len() == 0 {
        Map::empty()
    } else {
        entries_map(s.drop_last()).insert(s.last().0@, s.last().1)
    }
}

/// No id occurs twice.
pub open spec fn distinct_ids(s: Seq<(String, TransportHandle)>) -> bool {
    forall|i: int, j: int| 0 <= i < j < s.len() ==> s[i].0@ != s[j].0@
}

/// Counters after consumers reported `bytes` and `frames` more (wrapping).
pub open spec fn with_rx(h: TransportHandle, bytes: usize, frames: u64) -> TransportHandle {
    TransportHandle {
        stats: TransportStats {
            rx_bytes: h.stats.rx_bytes.wrapping_add(bytes as u64),
            rx_frames: h.stats.rx_frames.wrapping_add(frames),
            ..h.stats
        },
        ..h
    }
}

/// Running flag after a request to set it (only test-data connections have one).
pub open spec fn with_running(h: TransportHandle, running: bool) -> TransportHandle {
    match h.test_data_running {
        Some(_) => TransportHandle { test_data_running: Some(running), ..h },
        None => h,
    }
}

proof fn lemma_entries_dom(s: Seq<(String, TransportHandle)>, k: Seq<char>)
    ensures
        entries_map(s).dom().contains(k) <==> exists|i: int| 0 <= i < s.len() && s[i].0@ == k,
    decreases s.len(),
{
    if s.len() > 0 {
        lemma_entries_dom(s.drop_last(), k);
        if exists|i: int| 0 <= i < s.len() && s[i].0@ == k {
            let i = choose|i: int| 0 <= i < s.len() && s[i].0@ == k;
            if i < s.len() - 1 {
                assert(s.drop_last()[i] == s[i]);
            }
        }
        if exists|i: int| 0 <= i < s.drop_last().len() && s.drop_last()[i].0@ == k {
            let i = choose|i: int| 0 <= i < s.drop_last().len() && s.drop_last()[i].0@ == k;
            assert(s[i] == s.drop_last()[i]);
        }
    }
}

proof fn lemma_entries_at(s: Seq<(String, TransportHandle)>, i: int)
    requires
        distinct_ids(s),
        0 <= i < s.len(),
    ensures
        entries_map(s).dom().contains(s[i].0@),
        entries_map(s)[s[i].0@] == s[i].1,
    decreases s.len(),
{
    lemma_entries_dom(s, s[i].0@);
    if i < s.len() - 1 {
        lemma_entries_at(s.drop_last(), i);
    }
}

proof fn lemma_entries_remove(s: Seq<(String, TransportHandle)>, i: int)
    requires
        distinct_ids(s),
        0 <= i < s.len(),
    ensures
        distinct_ids(s.remove(i)),
        entries_map(s.remove(i)) == entries_map(s).remove(s[i].0@),
    decreases s.len(),
{
    let r = s.remove(i);
    assert(distinct_ids(r)) by {
        assert forall|a: int, b: int| 0 <= a < b < r.len() implies r[a].0@ != r[b].0@ by {
            let sa = if a < i { a } else { a + 1 };
            let sb = if b < i { b } else { b + 1 };
            assert(r[a] == s[sa] && r[b] == s[sb]);
        }
    }
    if i == s.len() - 1 {
        assert(r =~= s.drop_last());
        lemma_entries_dom(s.drop_last(), s[i].0@);
        assert(!entries_map(s.drop_last()).dom().contains(s[i].0@)) by {
            if exists|j: int| 0 <= j < s.drop_last().len() && s.drop_last()[j].0@ == s[i].0@ {
                let j = choose|j: int| 0 <= j < s.drop_last().len() && s.drop_last()[j].0@ == s[i].0@;
                assert(s[j] == s.drop_last()[j]);
            }
        }
        assert(entries_map(r) =~= entries_map(s).remove(s[i].0@));
    } else {
        let init = s.drop_last();
        assert(distinct_ids(init));
        lemma_entries_remove(init, i);
        assert(r.drop_last() =~= init.remove(i));
        assert(r.last() == s.last());
        assert(s.last().0@ != s[i].0@);
        assert(entries_map(r) =~= entries_map(s).remove(s[i].0@));
    }
}

proof fn lemma_entries_update(s: Seq<(String, TransportHandle)>, i: int, h: TransportHandle)
    requires
        distinct_ids(s),
        0 <= i < s.len(),
    ensures
        distinct_ids(s.update(i, (s[i].0, h))),
        entries_map(s.update(i, (s[i].0, h))) == entries_map(s).insert(s[i].0@, h),
    decreases s.len(),
{
    let u = s.update(i, (s[i].0, h));
    assert(distinct_ids(u)) by {
        assert forall|a: int, b: int| 0 <= a < b < u.len() implies u[a].0@ != u[b].0@ by {
            assert(u[a].0 == s[a].0 && u[b].0 == s[b].0);
        }
    }
    if i == s.len() - 1 {
        assert(u.drop_last() =~= s.drop_last());
        assert(entries_map(u) =~= entries_map(s).insert(s[i].0@, h));
    } else {
        let init = s.drop_last();
        lemma_entries_update(init, i, h);
        assert(u.drop_last() =~= init.update(i, (init[i].0, h)));
        assert(s.last().0@ != s[i].0@);
        assert(entries_map(u) =~= entries_map(s).insert(s[i].0@, h));
    }
}

impl TransportManager {
    /// Open connections by node id.
    pub closed spec fn view(&self) -> Map<Seq<char>, TransportHandle> {
        entries_map(self.handles@)
    }

    /// Each node id has at most one entry.
    pub closed spec fn well_formed(&self) -> bool {
        distinct_ids(self.handles@)
    }

    pub fn new() -> (r: Self)
        ensures
            r.well_formed(),
            r@ == Map::<Seq<char>, TransportHandle>::empty(),
    {
        TransportManager { handles: Vec::new() }
    }

    /// Position of `node_id`'s entry.
    fn find(&self, node_id: &str) -> (r: Option<usize>)
        requires
            self.well_formed(),
        ensures
            match r {
                Some(i) => i < self.handles@.len() && self.handles@[i as int].0@ == node_id@,
                None => !self@.dom().contains(node_id@),
            },
    {
        let key = node_id.to_owned();
        let mut i: usize = 0;
        while i < self.handles.len()
            invariant
                i <= self.handles@.len(),
                key@ == node_id@,
                forall|j: int| 0 <= j < i ==> self.handles@[j].0@ != node_id@,
            decreases self.handles.len() - i,
        {
            if self.handles[i].0 == key {
                return Some(i);
            }
            i = i + 1;
        }
        proof {
            lemma_entries_dom(self.handles@, node_id@);
        }
        None
    }

    /// Registers the connection opened for `node_id`; an earlier connection of
    /// the same node is replaced, other nodes keep theirs.
    pub fn register(&mut self, node_id: &str, handle: TransportHandle)
        requires
            old(self).well_formed(),
        ensures
            final(self).well_formed(),
            final(self)@ == old(self)@.insert(node_id@, handle),
    {
        let key = node_id.to_owned();
        match self.find(node_id) {
            Some(i) => {
                proof {
                    lemma_entries_update(self.handles@, i as int, handle);
                }
                let ghost s = self.handles@;
                let (id, _) = self.handles.remove(i);
                self.handles.insert(i, (id, handle));
                assert(self.handles@ =~= s.update(i as int, (s[i as int].0, handle)));
            },
            None => {
                let ghost s = self.handles@;
                proof {
                    lemma_entries_dom(s, node_id@);
                }
                self.handles.push((key, handle));
                assert(self.handles@.drop_last() =~= s);
                assert(distinct_ids(self.handles@)) by {
                    assert forall|a: int, b: int| 0 <= a < b < self.handles@.len() implies self.handles@[a].0@
                        != self.handles@[b].0@ by {
                        if b == s.len() {
                            assert(self.handles@[a] == s[a]);
                        } else {
                            assert(self.handles@[a] == s[a] && self.handles@[b] == s[b]);
                        }
                    }
                }
            },
        }
    }

    /// Closes `node_id`'s connection (an unknown id is ignored).
    pub fn close(&mut self, node_id: &str)
        requires
            old(self).well_formed(),
        ensures
            final(self).well_formed(),
            final(self)@ == old(self)@.remove(node_id@),
    {
        match self.find(node_id) {
            Some(i) => {
                proof {
                    lemma_entries_remove(self.handles@, i as int);
                }
                let _ = self.handles.remove(i);
            },
            None => {
                assert(self@ =~= old(self)@.remove(node_id@));
            },
        }
    }

    /// Closes every connection.
    pub fn close_all(&mut self)
        requires
            old(self).well_formed(),
        ensures
            final(self).well_formed(),
            final(self)@ == Map::<Seq<char>, TransportHandle>::empty(),
    {
        self.handles.clear();
        assert(self.handles@ =~= Seq::<(String, TransportHandle)>::empty());
    }

    /// Whether `node_id` has an open connection.
    pub fn is_open(&self, node_id: &str) -> (r: bool)
        requires
            self.well_formed(),
        ensures
            r == self@.dom().contains(node_id@),
    {
        match self.find(node_id) {
            Some(i) => {
                proof {
                    lemma_entries_at(self.handles@, i as int);
                }
                true
            },
            None => false,
        }
    }

    /// Node ids with an open connection, each once.
    pub fn list_open(&self) -> (r: Vec<String>)
        requires
            self.well_formed(),
        ensures
            forall|k: Seq<char>| self@.dom().contains(k) <==> exists|i: int| 0 <= i < r@.len() && r@[i]@ == k,
            forall|i: int, j: int| 0 <= i < j < r@.len() ==> r@[i]@ != r@[j]@,
    {
        let mut out: Vec<String> = Vec::new();
        let mut i: usize = 0;
        while i < self.handles.len()
            invariant
                i <= self.handles@.len(),
                out@.len() == i,
                forall|j: int| 0 <= j < i ==> out@[j]@ == self.handles@[j].0@,
            decreases self.handles.len() - i,
        {
            out.push(self.handles[i].0.clone());
            i = i + 1;
        }
        proof {
            assert forall|k: Seq<char>| self@.dom().contains(k) <==> exists|i: int| 0 <= i < out@.len() && out@[i]@ == k by {
                lemma_entries_dom(self.handles@, k);
                if exists|i: int| 0 <= i < out@.len() && out@[i]@ == k {
                    let i = choose|i: int| 0 <= i < out@.len() && out@[i]@ == k;
                    assert(self.handles@[i].0@ == k);
                }
                if exists|i: int| 0 <= i < self.handles@.len() && self.handles@[i].0@ == k {
                    let i = choose|i: int| 0 <= i < self.handles@.len() && self.handles@[i].0@ == k;
                    assert(out@[i]@ == k);
                }
            }
        }
        out
    }

    /// Adds consumed traffic to `node_id`'s receive counters (wrapping); an
    /// unknown id is ignored.
    pub fn record_rx(&mut self, node_id: &str, bytes: usize, frames: u64)
        requires
            old(self).well_formed(),
        ensures
            final(self).well_formed(),
            final(self)@ == if old(self)@.dom().contains(node_id@) {
                old(self)@.insert(node_id@, with_rx(old(self)@[node_id@], bytes, frames))
            } else {
                old(self)@
            },
    {
        match self.find(node_id) {
            Some(i) => {
                let ghost s = self.handles@;
                let h = self.handles[i].1;
                let nh = TransportHandle {
                    stats: TransportStats {
                        rx_bytes: h.stats.rx_bytes.wrapping_add(bytes as u64),
                        rx_frames: h.stats.rx_frames.wrapping_add(frames),
                        ..h.stats
                    },
                    ..h
                };
                proof {
                    lemma_entries_at(s, i as int);
                    lemma_entries_update(s, i as int, nh);
                }
                let (id, _) = self.handles.remove(i);
                self.handles.insert(i, (id, nh));
                assert(self.handles@ =~= s.update(i as int, (s[i as int].0, nh)));
            },
            None => {},
        }
    }

    /// Sets the test-data generator's running flag of `node_id` (only
    /// test-data connections have one; other ids are left as they are).
    pub fn set_test_data_running(&mut self, node_id: &str, running: bool)
        requires
            old(self).well_formed(),
        ensures
            final(self).well_formed(),
            final(self)@ == if old(self)@.dom().contains(node_id@) {
                old(self)@.insert(node_id@, with_running(old(self)@[node_id@], running))
            } else {
                old(self)@
            },
    {
        match self.find(node_id) {
            Some(i) => {
                let ghost s = self.handles@;
                let h = self.handles[i].1;
                let nh = match h.test_data_running {
                    Some(_) => TransportHandle { test_data_running: Some(running), ..h },
                    None => h,
                };
                proof {
                    lemma_entries_at(s, i as int);
                    lemma_entries_update(s, i as int, nh);
                }
                let (id, _) = self.handles.remove(i);
                self.handles.insert(i, (id, nh));
                assert(self.handles@ =~= s.update(i as int, (s[i as int].0, nh)));
            },
            None => {},
        }
    }

    /// Whether `node_id`'s test-data generator is running.
    pub fn is_test_data_running(&self, node_id: &str) -> (r: bool)
        requires
            self.well_formed(),
        ensures
            r == (self@.dom().contains(node_id@) && self@[node_id@].test_data_running == Some(true)),
    {
        match self.find(node_id) {
            Some(i) => {
                proof {
                    lemma_entries_at(self.handles@, i as int);
                }
                match self.handles[i].1.test_data_running {
                    Some(b) => b,
                    None => false,
                }
            },
            None => false,
        }
    }

    /// Connection state of `node_id` (`None` for an unknown id).
    pub fn state(&self, node_id: &str) -> (r: Option<ConnectionState>)
        requires
            self.well_formed(),
        ensures
            match r {
                Some(st) => self@.dom().contains(node_id@) && self@[node_id@].state == st,
                None => !self@.dom().contains(node_id@),
            },
    {
        match self.handle(node_id) {
            Some(h) => Some(h.state),
            None => None,
        }
    }

    /// Traffic counters of `node_id` (`None` for an unknown id).
    pub fn stats(&self, node_id: &str) -> (r: Option<TransportStats>)
        requires
            self.well_formed(),
        ensures
            match r {
                Some(st) => self@.dom().contains(node_id@) && self@[node_id@].stats == st,
                None => !self@.dom().contains(node_id@),
            },
    {
        match self.handle(node_id) {
            Some(h) => Some(h.stats),
            None => None,
        }
    }

    /// The registered state of `node_id`'s connection.
    pub fn handle(&self, node_id: &str) -> (r: Option<TransportHandle>)
        requires
            self.well_formed(),
        ensures
            match r {
                Some(h) => self@.dom().contains(node_id@) && self@[node_id@] == h,
                None => !self@.dom().contains(node_id@),
            },
    {
        match self.find(node_id) {
            Some(i) => {
                proof {
                    lemma_entries_at(self.handles@, i as int);
                }
                Some(self.handles[i].1)
            },
            None => None,
        }
    }
}

impl Default for TransportManager {
    /// No connections.
    fn default() -> (r: Self)
        ensures
            r.well_formed(),
            r@ == Map::<Seq<char>, TransportHandle>::empty(),
    {
        Self::new()
    }
}

} // verus!
