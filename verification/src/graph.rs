//! The causal structure of events: which events each event follows, all
//! the events it transitively follows, and its depth.
use vstd::prelude::*;
use std::collections::{BTreeSet, HashMap};
use vstd::std_specs::iter::IteratorSpec;
use vstd::std_specs::cmp::OrdSpec;
use crate::memory::{StoredEvent, StoredEventView};

verus! {

broadcast use {
    vstd::std_specs::btree::group_btree_axioms,
    vstd::laws_cmp::group_laws_cmp,
    vstd::std_specs::hash::group_hash_axioms,
};

/// A sequence of references that std's ordering calls increasing holds
/// increasing numbers.
proof fn lemma_increasing_refs(r: Seq<&u64>)
    requires
        vstd::std_specs::btree::increasing_seq(r),
    ensures
        forall|i: int, j: int| 0 <= i < j < r.len() ==> *r[i] < *r[j],
{
    assert(vstd::laws_cmp::obeys_cmp::<&u64>());
    vstd::std_specs::btree::axiom_increasing_seq_meaning::<&u64>(r);
    assert forall|i: int, j: int| 0 <= i < j < r.len() implies *r[i] < *r[j] by {
        assert(OrdSpec::cmp_spec(&r[i], &r[j]) is Less);
    }
}

/// The members of a set of event numbers, in increasing order.
pub fn set_elements(s: &BTreeSet<u64>) -> (v: Vec<u64>)
    ensures
        v@.to_set() == s@,
        forall|i: int, j: int| 0 <= i < j < v@.len() ==> v@[i] < v@[j],
{
    let mut v: Vec<u64> = Vec::new();
    let ghost full: Seq<u64> = vstd::std_specs::btree::spec_btree_keys_iter(s).remaining().unref();
    for x in it: s.iter()
        invariant
            v@ == it.seq().unref().take(it.index() as int),
            it.seq().unref() == full,
    {
        v.push(*x);
        assert(v@ =~= it.seq().unref().take(it.index() + 1));
    }
    assert(v@ =~= full);
    proof {
        lemma_increasing_refs(vstd::std_specs::btree::spec_btree_keys_iter(s).remaining());
    }
    v
}


/// The links of one event: the events it directly follows, every event it
/// follows directly or through others, and its depth (one more than the
/// deepest event it directly follows, 0 where it follows none).
#[derive(Clone, Debug)]
pub struct EventLinks {
    pub prereqs: BTreeSet<u64>,
    pub closure: BTreeSet<u64>,
    pub depth: usize,
}

/// The value of an event's links.
pub struct LinksView {
    pub prereqs: Set<u64>,
    pub closure: Set<u64>,
    pub depth: nat,
}

impl View for EventLinks {
    type V = LinksView;

    open spec fn view(&self) -> LinksView {
        LinksView { prereqs: self.prereqs@, closure: self.closure@, depth: self.depth as nat }
    }
}

/// The causal structure: events by number, and the number the next event
/// gets.
pub struct CausalGraph {
    pub events: HashMap<u64, EventLinks>,
    pub next_id: u64,
}

/// The value of the causal structure.
pub struct GraphView {
    pub events: Map<u64, LinksView>,
    pub next_id: u64,
}

impl View for CausalGraph {
    type V = GraphView;

    open spec fn view(&self) -> GraphView {
        GraphView { events: self.events@.map_values(|l: EventLinks| l@), next_id: self.next_id }
    }
}

/// What the known events among `prereqs` follow.
pub open spec fn inherited(g: Map<u64, LinksView>, prereqs: Set<u64>) -> Set<u64> {
    Set::new(
        |q: u64|
            exists|p: u64| #[trigger] prereqs.contains(p) && g.contains_key(p) && g[p].closure.contains(q),
    )
}

/// Everything a new event after `prereqs` follows: its prerequisites and
/// all that the known ones follow.
pub open spec fn closure_after(g: Map<u64, LinksView>, prereqs: Set<u64>) -> Set<u64> {
    prereqs.union(inherited(g, prereqs))
}

/// Whether `d` is the depth of a new event after `prereqs`: one more than
/// the deepest known prerequisite, or 0 where none is known.
pub open spec fn depth_after(g: Map<u64, LinksView>, prereqs: Set<u64>, d: nat) -> bool {
    &&& forall|p: u64| #[trigger] prereqs.contains(p) && g.contains_key(p) ==> g[p].depth + 1 <= d
    &&& (d == 0 || exists|p: u64| #[trigger] prereqs.contains(p) && g.contains_key(p) && g[p].depth + 1 == d)
}

/// What the known events among the first members of `ps` follow.
pub open spec fn inherited_seq(g: Map<u64, LinksView>, ps: Seq<u64>) -> Set<u64> {
    Set::new(
        |q: u64|
            exists|k: int| 0 <= k < ps.len() && g.contains_key(#[trigger] ps[k]) && g[ps[k]].closure.contains(q),
    )
}

/// Whether `d` is the depth of a new event after the first members of `ps`.
pub open spec fn depth_seq(g: Map<u64, LinksView>, ps: Seq<u64>, d: nat) -> bool {
    &&& forall|k: int| 0 <= k < ps.len() && g.contains_key(#[trigger] ps[k]) ==> g[ps[k]].depth + 1 <= d
    &&& (d == 0 || exists|k: int| 0 <= k < ps.len() && g.contains_key(#[trigger] ps[k]) && g[ps[k]].depth + 1 == d)
}

impl CausalGraph {
    /// An empty structure whose first event gets number 1.
    pub fn new() -> (g: CausalGraph)
        ensures
            g@.events == Map::<u64, LinksView>::empty(),
            g@.next_id == 1,
            numbers_below_next(g@),
    {
        let g = CausalGraph { events: HashMap::new(), next_id: 1 };
        assert(g@.events =~= Map::<u64, LinksView>::empty());
        g
    }

    /// Adds an event after `prereqs` under the next number, which it
    /// returns; the number after it becomes the next.
    pub fn add_event(&mut self, prereqs: BTreeSet<u64>) -> (id: u64)
        requires
            old(self).next_id < u64::MAX,
            forall|p: u64|
                #[trigger] prereqs@.contains(p) && old(self)@.events.contains_key(p)
                    ==> old(self)@.events[p].depth < usize::MAX,
        ensures
            id == old(self)@.next_id,
            final(self)@.next_id == id + 1,
            final(self)@.events.contains_key(id),
            final(self)@.events == old(self)@.events.insert(
                id,
                LinksView {
                    prereqs: prereqs@,
                    closure: closure_after(old(self)@.events, prereqs@),
                    depth: final(self)@.events[id].depth,
                },
            ),
            depth_after(old(self)@.events, prereqs@, final(self)@.events[id].depth),
    {
        let ghost g = self@.events;
        let id = self.next_id;
        let ps = set_elements(&prereqs);
        let mut closure = prereqs.clone();
        let mut depth: usize = 0;
        let mut i: usize = 0;
        assert(inherited_seq(g, ps@.take(0)) =~= Set::empty());
        assert(closure@ =~= prereqs@.union(inherited_seq(g, ps@.take(0))));
        while i < ps.len()
            invariant
                g == self@.events,
                i <= ps@.len(),
                ps@.to_set() == prereqs@,
                forall|p: u64| #[trigger] prereqs@.contains(p) && g.contains_key(p) ==> g[p].depth < usize::MAX,
                closure@ == prereqs@.union(inherited_seq(g, ps@.take(i as int))),
                depth_seq(g, ps@.take(i as int), depth as nat),
            decreases ps.len() - i,
        {
            let p = ps[i];
            assert(ps@.to_set().contains(p));
            let ghost before = closure@;
            match self.events.get(&p) {
                Some(e) => {
                    let cs = set_elements(&e.closure);
                    let mut k: usize = 0;
                    while k < cs.len()
                        invariant
                            k <= cs@.len(),
                            closure@ == before.union(cs@.take(k as int).to_set()),
                        decreases cs.len() - k,
                    {
                        closure.insert(cs[k]);
                        proof {
                            assert(cs@.take(k + 1) =~= cs@.take(k as int).push(cs@[k as int]));
                            cs@.take(k as int).lemma_push_to_set_commute(cs@[k as int]);
                        }
                        k += 1;
                    }
                    assert(cs@.take(cs.len() as int) =~= cs@);
                    if e.depth + 1 > depth {
                        depth = e.depth + 1;
                    }
                },
                None => {},
            }
            proof {
                let ts = ps@.take(i + 1);
                assert(ts =~= ps@.take(i as int).push(p));
                assert(inherited_seq(g, ts) =~= if g.contains_key(p) {
                    inherited_seq(g, ps@.take(i as int)).union(g[p].closure)
                } else {
                    inherited_seq(g, ps@.take(i as int))
                }) by {
                    assert forall|q: u64| #[trigger] inherited_seq(g, ts).contains(q) implies (if g.contains_key(p) {
                        inherited_seq(g, ps@.take(i as int)).union(g[p].closure)
                    } else {
                        inherited_seq(g, ps@.take(i as int))
                    }).contains(q) by {
                        let k = choose|k: int| 0 <= k < ts.len() && g.contains_key(#[trigger] ts[k]) && g[ts[k]].closure.contains(q);
                        if k < i {
                            assert(ps@.take(i as int)[k] == ts[k]);
                        }
                    }
                    assert forall|q: u64| (if g.contains_key(p) {
                        inherited_seq(g, ps@.take(i as int)).union(g[p].closure)
                    } else {
                        inherited_seq(g, ps@.take(i as int))
                    }).contains(q) implies #[trigger] inherited_seq(g, ts).contains(q) by {
                        if inherited_seq(g, ps@.take(i as int)).contains(q) {
                            let k = choose|k: int| 0 <= k < ps@.take(i as int).len() && g.contains_key(#[trigger] ps@.take(i as int)[k]) && g[ps@.take(i as int)[k]].closure.contains(q);
                            assert(ts[k] == ps@.take(i as int)[k]);
                        } else {
                            assert(ts[i as int] == p);
                        }
                    }
                }
                assert(closure@ =~= prereqs@.union(inherited_seq(g, ts)));
                assert forall|k: int| 0 <= k < ts.len() && g.contains_key(#[trigger] ts[k]) implies g[ts[k]].depth + 1 <= depth by {
                    if k < i {
                        assert(ps@.take(i as int)[k] == ts[k]);
                    }
                }
                if depth != 0 {
                    if g.contains_key(p) && g[p].depth + 1 == depth {
                        assert(ts[i as int] == p);
                    } else {
                        let k = choose|k: int| 0 <= k < ps@.take(i as int).len() && g.contains_key(#[trigger] ps@.take(i as int)[k]) && g[ps@.take(i as int)[k]].depth + 1 == depth;
                        assert(ts[k] == ps@.take(i as int)[k]);
                    }
                }
            }
            i += 1;
        }
        proof {
            assert(ps@.take(ps.len() as int) =~= ps@);
            assert(inherited_seq(g, ps@) =~= inherited(g, prereqs@)) by {
                assert forall|q: u64| #[trigger] inherited(g, prereqs@).contains(q) implies inherited_seq(g, ps@).contains(q) by {
                    let p = choose|p: u64| #[trigger] prereqs@.contains(p) && g.contains_key(p) && g[p].closure.contains(q);
                    assert(ps@.to_set().contains(p));
                    let k = choose|k: int| 0 <= k < ps@.len() && ps@[k] == p;
                    assert(g.contains_key(ps@[k]));
                }
                assert forall|q: u64| #[trigger] inherited_seq(g, ps@).contains(q) implies inherited(g, prereqs@).contains(q) by {
                    let k = choose|k: int| 0 <= k < ps@.len() && g.contains_key(#[trigger] ps@[k]) && g[ps@[k]].closure.contains(q);
                    assert(ps@.to_set().contains(ps@[k]));
                    assert(prereqs@.contains(ps@[k]));
                }
            }
            assert forall|p: u64| #[trigger] prereqs@.contains(p) && g.contains_key(p) implies g[p].depth + 1 <= depth by {
                assert(ps@.to_set().contains(p));
                let k = choose|k: int| 0 <= k < ps@.len() && ps@[k] == p;
                assert(g.contains_key(ps@[k]));
            }
            if depth != 0 {
                let k = choose|k: int| 0 <= k < ps@.len() && g.contains_key(#[trigger] ps@[k]) && g[ps@[k]].depth + 1 == depth;
                assert(ps@.to_set().contains(ps@[k]));
                assert(prereqs@.contains(ps@[k]));
            }
        }
        let links = EventLinks { prereqs, closure, depth };
        self.events.insert(id, links);
        self.next_id = id + 1;
        proof {
            assert(self@.events =~= g.insert(id, links@));
        }
        id
    }
}


/// The greatest depth among the first members of a sequence of links, or 0.
pub open spec fn max_depth_seq(ls: Seq<EventLinks>) -> nat
    decreases ls.len(),
{
    if ls.len() == 0 {
        0
    } else {
        let m = max_depth_seq(ls.drop_last());
        let d = ls.last().depth as nat;
        if d > m {
            d
        } else {
            m
        }
    }
}

proof fn lemma_max_depth_seq(ls: Seq<EventLinks>)
    ensures
        forall|k: int| 0 <= k < ls.len() ==> (#[trigger] ls[k]).depth <= max_depth_seq(ls),
        ls.len() == 0 ==> max_depth_seq(ls) == 0,
        ls.len() > 0 ==> exists|k: int| 0 <= k < ls.len() && (#[trigger] ls[k]).depth == max_depth_seq(ls),
    decreases ls.len(),
{
    if ls.len() > 0 {
        lemma_max_depth_seq(ls.drop_last());
        assert forall|k: int| 0 <= k < ls.len() implies (#[trigger] ls[k]).depth <= max_depth_seq(ls) by {
            if k < ls.len() - 1 {
                assert(ls[k] == ls.drop_last()[k]);
            }
        }
        if max_depth_seq(ls) == ls.last().depth as nat {
            assert(ls[ls.len() - 1] == ls.last());
        } else {
            let k = choose|k: int| 0 <= k < ls.drop_last().len() && (#[trigger] ls.drop_last()[k]).depth == max_depth_seq(ls.drop_last());
            assert(ls[k] == ls.drop_last()[k]);
        }
    }
}

proof fn lemma_max_depth_of(m: Map<u64, EventLinks>, full: Seq<EventLinks>, d: usize)
    requires
        full.to_set() == m.values(),
        d == max_depth_seq(full),
    ensures
        forall|id: u64| #[trigger] m.contains_key(id) ==> m[id].depth <= d,
        m.dom().is_empty() ==> d == 0,
        !m.dom().is_empty() ==> exists|id: u64| #[trigger] m.contains_key(id) && m[id].depth == d,
{
    lemma_max_depth_seq(full);
    let vals = m.values();
    assert forall|id: u64| #[trigger] m.contains_key(id) implies m[id].depth <= d by {
        assert(vals.contains(m[id]));
        assert(full.to_set().contains(m[id]));
        let k = choose|k: int| 0 <= k < full.len() && full[k] == m[id];
        assert(full[k].depth <= max_depth_seq(full));
    }
    if m.dom().is_empty() {
        if full.len() > 0 {
            assert(full.to_set().contains(full[0]));
            assert(vals.contains(full[0]));
            let id = choose|id: u64| m.contains_key(id) && m[id] == full[0];
            assert(m.dom().contains(id));
        }
    } else {
        let id0 = m.dom().choose();
        assert(m.contains_key(id0));
        assert(vals.contains(m[id0]));
        assert(full.to_set().contains(m[id0]));
        assert(full.len() > 0);
        let k = choose|k: int| 0 <= k < full.len() && (#[trigger] full[k]).depth == max_depth_seq(full);
        assert(full.to_set().contains(full[k]));
        assert(vals.contains(full[k]));
        let id = choose|id: u64| m.contains_key(id) && m[id] == full[k];
        assert(m.contains_key(id) && m[id].depth == d);
    }
}

impl EventLinks {
    /// The smallest event this one directly follows, if any.
    pub fn first_prereq(&self) -> (r: Option<u64>)
        ensures
            match r {
                Some(p) => self.prereqs@.contains(p) && forall|q: u64| #[trigger] self.prereqs@.contains(q) ==> p <= q,
                None => self.prereqs@.is_empty(),
            },
    {
        let ps = set_elements(&self.prereqs);
        if ps.len() == 0 {
            assert(self.prereqs@ =~= Set::empty()) by {
                assert forall|q: u64| !self.prereqs@.contains(q) by {
                    if self.prereqs@.contains(q) {
                        assert(ps@.to_set().contains(q));
                    }
                }
            }
            None
        } else {
            let p = ps[0];
            assert(ps@.to_set().contains(p));
            assert forall|q: u64| #[trigger] self.prereqs@.contains(q) implies p <= q by {
                assert(ps@.to_set().contains(q));
                let k = choose|k: int| 0 <= k < ps@.len() && ps@[k] == q;
                if k > 0 {
                    assert(ps@[0] < ps@[k]);
                }
            }
            Some(p)
        }
    }
}

/// Every event's number lies below the number the next event gets.
pub open spec fn numbers_below_next(g: GraphView) -> bool {
    forall|id: u64| #[trigger] g.events.contains_key(id) ==> id < g.next_id
}

impl CausalGraph {
    /// The greatest depth of any event, 0 where there is none.
    pub fn max_depth(&self) -> (d: usize)
        ensures
            forall|id: u64| #[trigger] self@.events.contains_key(id) ==> self@.events[id].depth <= d,
            self@.events.dom().is_empty() ==> d == 0,
            !self@.events.dom().is_empty() ==> exists|id: u64|
                #[trigger] self@.events.contains_key(id) && self@.events[id].depth == d,
    {
        let ghost full = vstd::std_specs::hash::spec_values_iter(&self.events).remaining().unref();
        let mut d: usize = 0;
        for l in it: self.events.values()
            invariant
                it.seq().unref() == full,
                d == max_depth_seq(it.seq().unref().take(it.index() as int)),
        {
            let ghost before = it.seq().unref().take(it.index() as int);
            if l.depth > d {
                d = l.depth;
            }
            assert(it.seq().unref().take(it.index() + 1).drop_last() =~= before);
        }
        proof {
            assert(full.take(full.len() as int) =~= full);
            lemma_max_depth_of(self.events@, full, d);
            assert(self@.events.dom() =~= self.events@.dom());
            if !self@.events.dom().is_empty() {
                let id = choose|id: u64| #[trigger] self.events@.contains_key(id) && self.events@[id].depth == d;
                assert(self@.events.contains_key(id) && self@.events[id].depth == d);
            }
        }
        d
    }

    /// Every event `id` follows, in increasing order; none where there is
    /// no event `id`.
    pub fn causal_ancestors(&self, id: u64) -> (r: Vec<u64>)
        ensures
            self@.events.contains_key(id) ==> r@.to_set() == self@.events[id].closure,
            !self@.events.contains_key(id) ==> r@.len() == 0,
            forall|i: int, j: int| 0 <= i < j < r@.len() ==> r@[i] < r@[j],
    {
        match self.events.get(&id) {
            Some(e) => set_elements(&e.closure),
            None => Vec::new(),
        }
    }

    /// Records a saved event under its own number with its depth and no
    /// links; the next number becomes at least one past it.
    pub fn load_event(&mut self, id: u64, depth: usize)
        requires
            id < u64::MAX,
        ensures
            final(self)@.events == old(self)@.events.insert(
                id,
                LinksView { prereqs: Set::empty(), closure: Set::empty(), depth: depth as nat },
            ),
            final(self)@.next_id == if old(self)@.next_id > id + 1 {
                old(self)@.next_id as int
            } else {
                id + 1
            },
    {
        let links = EventLinks { prereqs: BTreeSet::new(), closure: BTreeSet::new(), depth };
        let ghost g = self@.events;
        self.events.insert(id, links);
        if self.next_id < id + 1 {
            self.next_id = id + 1;
        }
        proof {
            assert(self@.events =~= g.insert(id, links@));
        }
    }
}

/// Whether `p` is the least of `ps`.
pub open spec fn is_least(ps: Set<u64>, p: u64) -> bool {
    ps.contains(p) && forall|q: u64| #[trigger] ps.contains(q) ==> p <= q
}

/// One step of a list walk: `a` is a known event, and `b`, not 0, is the
/// least event it directly follows.
pub open spec fn list_step(g: Map<u64, LinksView>, a: u64, b: u64) -> bool {
    g.contains_key(a) && b != 0 && is_least(g[a].prereqs, b)
}

/// Whether consecutive members of `ids` are steps of a list walk.
pub open spec fn list_walk(g: Map<u64, LinksView>, ids: Seq<u64>) -> bool {
    forall|k: int| 0 <= k < ids.len() - 1 ==> #[trigger] list_step(g, ids[k], ids[k + 1])
}

/// Whether a list walk stops at `id`: it is not a known event, or it
/// follows none, or the least it follows is 0.
pub open spec fn list_stops(g: Map<u64, LinksView>, id: u64) -> bool {
    !g.contains_key(id) || g[id].prereqs.is_empty() || is_least(g[id].prereqs, 0)
}

/// Whether some member of `ids` occurs again later.
pub open spec fn comes_back(ids: Seq<u64>) -> bool {
    exists|i: int, j: int| 0 <= i < j < ids.len() && ids[i] == ids[j]
}

/// Whether `v` holds `x`.
fn vec_contains(v: &Vec<u64>, x: u64) -> (b: bool)
    ensures
        b == v@.contains(x),
{
    let mut k: usize = 0;
    while k < v.len()
        invariant
            k <= v@.len(),
            forall|j: int| 0 <= j < k ==> v@[j] != x,
        decreases v.len() - k,
    {
        if v[k] == x {
            return true;
        }
        k += 1;
    }
    false
}

impl CausalGraph {
    /// The events of the list that starts at `start`: from each known event
    /// the walk goes on to the least event it directly follows, and it stops
    /// at an unknown event, at an event that follows none, and before 0.
    /// Nothing where the walk comes back to an event it passed, and so would
    /// never stop.
    pub fn list_of(&self, start: u64) -> (r: Option<Vec<u64>>)
        ensures
            start == 0 ==> (r matches Some(ids) && ids@.len() == 0),
            r matches Some(ids) ==> (start != 0 ==> {
                &&& ids@.len() > 0
                &&& ids@[0] == start
                &&& list_walk(self@.events, ids@)
                &&& list_stops(self@.events, ids@.last())
                &&& ids@.no_duplicates()
            }),
            r is None ==> start != 0 && exists|ids: Seq<u64>|
                ids.len() > 0 && ids[0] == start && list_walk(self@.events, ids) && comes_back(ids),
    {
        let mut ids: Vec<u64> = Vec::new();
        if start == 0 {
            return Some(ids);
        }
        let ghost g = self@.events;
        let mut cur = start;
        assert(list_walk(g, ids@.push(cur)));
        loop
            invariant
                g == self@.events,
                start != 0,
                cur != 0,
                ids@.push(cur)[0] == start,
                list_walk(g, ids@.push(cur)),
                ids@.push(cur).no_duplicates(),
                forall|k: int| 0 <= k < ids@.len() ==> g.contains_key(#[trigger] ids@[k]),
            decreases g.dom().len() - ids@.len(),
        {
            let ghost s = ids@.push(cur);
            match self.events.get(&cur) {
                None => {
                    ids.push(cur);
                    assert(ids@ == s);
                    return Some(ids);
                },
                Some(e) => {
                    proof {
                        s.unique_seq_to_set();
                        assert(g.dom() =~= self.events@.dom());
                        assert forall|x: u64| #[trigger] s.to_set().contains(x) implies g.dom().contains(x) by {
                            let k = choose|k: int| 0 <= k < s.len() && s[k] == x;
                            if k < ids@.len() {
                                assert(g.contains_key(ids@[k]));
                            }
                        }
                        vstd::set_lib::lemma_len_subset(s.to_set(), g.dom());
                    }
                    let nx = e.first_prereq();
                    ids.push(cur);
                    assert(ids@ == s);
                    match nx {
                        None => {
                            return Some(ids);
                        },
                        Some(p) => {
                            if p == 0 {
                                return Some(ids);
                            }
                            let ghost t = ids@.push(p);
                            assert(list_step(g, cur, p));
                            assert(list_walk(g, ids@.push(p))) by {
                                assert forall|k: int| 0 <= k < t.len() - 1 implies #[trigger] list_step(g, t[k], t[k + 1]) by {
                                    if k < s.len() - 1 {
                                        assert(t[k] == s[k] && t[k + 1] == s[k + 1]);
                                    }
                                }
                            }
                            if vec_contains(&ids, p) {
                                proof {
                                    let i = choose|i: int| 0 <= i < ids@.len() && ids@[i] == p;
                                    assert(t[i] == t[t.len() - 1]);
                                    assert(comes_back(t));
                                    assert(t[0] == start);
                                }
                                return None;
                            }
                            proof {
                                assert forall|k: int| 0 <= k < ids@.len() implies g.contains_key(#[trigger] ids@[k]) by {
                                    if k < ids@.len() - 1 {
                                        assert(ids@[k] == s[k]);
                                    }
                                }
                                assert(t.no_duplicates());
                            }
                            cur = p;
                        },
                    }
                },
            }
        }
    }
}

/// A depth as a proper-time walk compares it: cut to 32 bits, signed.
pub open spec fn depth_key(d: nat) -> i32 {
    d as i32
}

/// One step of a proper-time walk: from the known event `a` to `b`, the
/// known event it directly follows whose depth key is greatest, the least
/// such one; keys below 0 never count.
pub open spec fn deepest_step(g: Map<u64, LinksView>, a: u64, b: u64) -> bool {
    &&& g.contains_key(a)
    &&& g[a].prereqs.contains(b)
    &&& g.contains_key(b)
    &&& depth_key(g[b].depth) >= 0
    &&& forall|q: u64|
        #[trigger] g[a].prereqs.contains(q) && g.contains_key(q) ==> depth_key(g[q].depth) < depth_key(g[b].depth)
            || (depth_key(g[q].depth) == depth_key(g[b].depth) && b <= q)
}

/// Whether a proper-time walk stops at the known event `a`: no known event
/// it directly follows has a key of 0 or more.
pub open spec fn deepest_stops(g: Map<u64, LinksView>, a: u64) -> bool {
    forall|q: u64| #[trigger] g[a].prereqs.contains(q) && g.contains_key(q) ==> depth_key(g[q].depth) < 0
}

/// Whether consecutive members of `ids` are steps of a proper-time walk.
pub open spec fn deepest_walk(g: Map<u64, LinksView>, ids: Seq<u64>) -> bool {
    forall|k: int| 0 <= k < ids.len() - 1 ==> #[trigger] deepest_step(g, ids[k], ids[k + 1])
}

impl CausalGraph {
    /// A deepest event, where some event has a depth above 0.  Which one of
    /// several equally deep events comes back depends on the order in which
    /// the map is walked.
    pub fn deepest_event(&self) -> (r: Option<u64>)
        ensures
            match r {
                Some(id) => self@.events.contains_key(id) && self@.events[id].depth > 0
                    && forall|q: u64| #[trigger] self@.events.contains_key(q) ==> self@.events[q].depth
                        <= self@.events[id].depth,
                None => forall|q: u64| #[trigger] self@.events.contains_key(q) ==> self@.events[q].depth == 0,
            },
    {
        let d = self.max_depth();
        if d == 0 {
            return None;
        }
        let ghost full = vstd::std_specs::hash::spec_hash_map_iter(&self.events).remaining();
        let mut found: Option<u64> = None;
        for kv in it: self.events.iter()
            invariant
                it.seq() == full,
                d > 0,
                forall|q: u64| #[trigger] self@.events.contains_key(q) ==> self@.events[q].depth <= d,
                found matches Some(id) ==> self@.events.contains_key(id) && self@.events[id].depth == d,
                found is None ==> forall|k: int| 0 <= k < it.index() ==> (#[trigger] it.seq()[k]).1.depth != d,
        {
            let (id, l) = kv;
            if found.is_none() && l.depth == d {
                found = Some(*id);
            }
        }
        match found {
            Some(id) => Some(id),
            None => {
                proof {
                    let id = choose|id: u64| #[trigger] self@.events.contains_key(id) && self@.events[id].depth == d;
                    assert(self.events@.contains_key(id));
                    assert(full.contains((&id, &self.events@[id])));
                    let k = choose|k: int| 0 <= k < full.len() && full[k] == (&id, &self.events@[id]);
                    assert(full[k].1.depth == d);
                }
                None
            },
        }
    }
}

impl CausalGraph {
    /// Where the proper-time walk goes from the known event `id`: the known
    /// event it directly follows with the greatest depth key of 0 or more,
    /// the least such one; nothing where there is none.
    pub fn deepest_prereq(&self, id: u64) -> (r: Option<u64>)
        requires
            self@.events.contains_key(id),
        ensures
            match r {
                Some(b) => deepest_step(self@.events, id, b),
                None => deepest_stops(self@.events, id),
            },
    {
        let ghost g = self@.events;
        let e = self.events.get(&id).unwrap();
        let ps = set_elements(&e.prereqs);
        let mut best: Option<u64> = None;
        let mut best_d: i32 = -1;
        let ghost mut jb: int = 0;
        let mut k: usize = 0;
        while k < ps.len()
            invariant
                g == self@.events,
                g.contains_key(id),
                ps@.to_set() == g[id].prereqs,
                forall|i: int, j: int| 0 <= i < j < ps@.len() ==> ps@[i] < ps@[j],
                k <= ps@.len(),
                match best {
                    Some(b) => {
                        &&& 0 <= jb < k
                        &&& ps@[jb] == b
                        &&& g.contains_key(b)
                        &&& best_d == depth_key(g[b].depth)
                        &&& best_d >= 0
                        &&& forall|j: int|
                            0 <= j < k && g.contains_key(#[trigger] ps@[j]) ==> depth_key(g[ps@[j]].depth) < best_d
                                || (depth_key(g[ps@[j]].depth) == best_d && jb <= j)
                    },
                    None => {
                        &&& best_d == -1
                        &&& forall|j: int|
                            0 <= j < k && g.contains_key(#[trigger] ps@[j]) ==> depth_key(g[ps@[j]].depth) < 0
                    },
                },
            decreases ps.len() - k,
        {
            let p = ps[k];
            match self.events.get(&p) {
                Some(pe) => {
                    let d = pe.depth as i32;
                    assert(d == depth_key(g[p].depth));
                    if d > best_d {
                        best_d = d;
                        best = Some(p);
                        proof {
                            jb = k as int;
                        }
                    }
                },
                None => {},
            }
            k += 1;
        }
        match best {
            Some(b) => {
                proof {
                    assert(ps@.to_set().contains(b));
                    assert forall|q: u64| #[trigger] g[id].prereqs.contains(q) && g.contains_key(q) implies depth_key(
                        g[q].depth,
                    ) < depth_key(g[b].depth) || (depth_key(g[q].depth) == depth_key(g[b].depth) && b <= q) by {
                        assert(ps@.to_set().contains(q));
                        let j = choose|j: int| 0 <= j < ps@.len() && ps@[j] == q;
                        assert(g.contains_key(ps@[j]));
                        if depth_key(g[q].depth) == depth_key(g[b].depth) && jb < j {
                            assert(ps@[jb] < ps@[j]);
                        }
                    }
                }
                Some(b)
            },
            None => {
                proof {
                    assert forall|q: u64| #[trigger] g[id].prereqs.contains(q) && g.contains_key(q) implies depth_key(
                        g[q].depth,
                    ) < 0 by {
                        assert(ps@.to_set().contains(q));
                        let j = choose|j: int| 0 <= j < ps@.len() && ps@[j] == q;
                        assert(g.contains_key(ps@[j]));
                    }
                }
                None
            },
        }
    }

    /// The events a proper-time walk passes from `start`: none where
    /// `start` is not a known event; else `start`, then each step to the
    /// deepest event the last one directly follows, until there is none.
    /// Nothing where the walk comes back to an event it passed, and so would
    /// never stop.
    pub fn deepest_chain(&self, start: u64) -> (r: Option<Vec<u64>>)
        ensures
            !self@.events.contains_key(start) ==> (r matches Some(ids) && ids@.len() == 0),
            r matches Some(ids) ==> (self@.events.contains_key(start) ==> {
                &&& ids@.len() > 0
                &&& ids@[0] == start
                &&& deepest_walk(self@.events, ids@)
                &&& deepest_stops(self@.events, ids@.last())
                &&& ids@.no_duplicates()
            }),
            r is None ==> self@.events.contains_key(start) && exists|ids: Seq<u64>|
                ids.len() > 0 && ids[0] == start && deepest_walk(self@.events, ids) && comes_back(ids),
    {
        let mut ids: Vec<u64> = Vec::new();
        if !self.events.contains_key(&start) {
            return Some(ids);
        }
        let ghost g = self@.events;
        let mut cur = start;
        assert(deepest_walk(g, ids@.push(cur)));
        loop
            invariant
                g == self@.events,
                g.contains_key(start),
                g.contains_key(cur),
                ids@.push(cur)[0] == start,
                deepest_walk(g, ids@.push(cur)),
                ids@.push(cur).no_duplicates(),
                forall|k: int| 0 <= k < ids@.len() ==> g.contains_key(#[trigger] ids@[k]),
            decreases g.dom().len() - ids@.len(),
        {
            let ghost s = ids@.push(cur);
            proof {
                s.unique_seq_to_set();
                assert(g.dom() =~= self.events@.dom());
                assert forall|x: u64| #[trigger] s.to_set().contains(x) implies g.dom().contains(x) by {
                    let k = choose|k: int| 0 <= k < s.len() && s[k] == x;
                    if k < ids@.len() {
                        assert(g.contains_key(ids@[k]));
                    }
                }
                vstd::set_lib::lemma_len_subset(s.to_set(), g.dom());
            }
            let nx = self.deepest_prereq(cur);
            ids.push(cur);
            assert(ids@ == s);
            match nx {
                None => {
                    return Some(ids);
                },
                Some(p) => {
                    let ghost t = ids@.push(p);
                    assert(deepest_walk(g, t)) by {
                        assert forall|k: int| 0 <= k < t.len() - 1 implies #[trigger] deepest_step(g, t[k], t[k + 1]) by {
                            if k < s.len() - 1 {
                                assert(t[k] == s[k] && t[k + 1] == s[k + 1]);
                            }
                        }
                    }
                    if vec_contains(&ids, p) {
                        proof {
                            let i = choose|i: int| 0 <= i < ids@.len() && ids@[i] == p;
                            assert(t[i] == t[t.len() - 1]);
                            assert(comes_back(t));
                            assert(t[0] == start);
                        }
                        return None;
                    }
                    proof {
                        assert forall|k: int| 0 <= k < ids@.len() implies g.contains_key(#[trigger] ids@[k]) by {
                            if k < ids@.len() - 1 {
                                assert(ids@[k] == s[k]);
                            }
                        }
                        assert(t.no_duplicates());
                    }
                    cur = p;
                },
            }
        }
    }
}

/// A list walk is determined: from an event there is at most one step, so a
/// walk that comes back to an event goes round for ever.
pub proof fn lemma_list_step_unique(g: Map<u64, LinksView>, a: u64, b: u64, c: u64)
    requires
        list_step(g, a, b),
        list_step(g, a, c),
    ensures
        b == c,
{
}

/// A stopped list walk takes no further step.
pub proof fn lemma_list_stops_no_step(g: Map<u64, LinksView>, a: u64, b: u64)
    requires
        list_stops(g, a),
    ensures
        !list_step(g, a, b),
{
}

/// A proper-time walk is determined: from an event there is at most one
/// step.
pub proof fn lemma_deepest_step_unique(g: Map<u64, LinksView>, a: u64, b: u64, c: u64)
    requires
        deepest_step(g, a, b),
        deepest_step(g, a, c),
    ensures
        b == c,
{
    assert(g[a].prereqs.contains(c) && g.contains_key(c));
    assert(g[a].prereqs.contains(b) && g.contains_key(b));
}

/// A stopped proper-time walk takes no further step.
pub proof fn lemma_deepest_stops_no_step(g: Map<u64, LinksView>, a: u64, b: u64)
    requires
        deepest_stops(g, a),
    ensures
        !deepest_step(g, a, b),
{
    if deepest_step(g, a, b) {
        assert(g[a].prereqs.contains(b) && g.contains_key(b));
    }
}

/// Loading one saved event into the structure: it is recorded under its
/// own number with its depth and no links, and the next number becomes at
/// least one past it.
pub open spec fn load_step(g: GraphView, id: u64, depth: nat) -> GraphView {
    GraphView {
        events: g.events.insert(id, LinksView { prereqs: Set::empty(), closure: Set::empty(), depth }),
        next_id: if g.next_id > id + 1 {
            g.next_id
        } else {
            (id + 1) as u64
        },
    }
}

/// The structure after loading the saved events in order into an empty
/// one; a later event under the same number replaces an earlier one.
pub open spec fn loaded(evs: Seq<StoredEventView>) -> GraphView
    decreases evs.len(),
{
    if evs.len() == 0 {
        GraphView { events: Map::empty(), next_id: 1 }
    } else {
        load_step(loaded(evs.drop_last()), evs.last().id, (evs.last().depth as usize) as nat)
    }
}

/// After a whole load, the events are those of the saved numbers, the next
/// number is 1 past the largest saved number (1 where nothing was saved),
/// and it lies above every number in use, so a new event overwrites none.
pub proof fn lemma_loaded(evs: Seq<StoredEventView>)
    requires
        forall|k: int| 0 <= k < evs.len() ==> (#[trigger] evs[k]).id < u64::MAX,
    ensures
        forall|id: u64| #[trigger] loaded(evs).events.contains_key(id) <==> exists|k: int|
            0 <= k < evs.len() && evs[k].id == id,
        forall|k: int| 0 <= k < evs.len() ==> loaded(evs).next_id > (#[trigger] evs[k]).id,
        evs.len() == 0 ==> loaded(evs).next_id == 1,
        evs.len() > 0 ==> exists|k: int| 0 <= k < evs.len() && loaded(evs).next_id == (#[trigger] evs[k]).id + 1,
        numbers_below_next(loaded(evs)),
    decreases evs.len(),
{
    if evs.len() > 0 {
        let init = evs.drop_last();
        assert forall|k: int| 0 <= k < init.len() implies (#[trigger] init[k]).id < u64::MAX by {
            assert(init[k] == evs[k]);
        }
        lemma_loaded(init);
        let g = loaded(evs);
        let last = evs.len() - 1;
        assert(evs[last] == evs.last());
        assert forall|id: u64| #[trigger] g.events.contains_key(id) <==> exists|k: int|
            0 <= k < evs.len() && evs[k].id == id by {
            if g.events.contains_key(id) && id != evs.last().id {
                let k = choose|k: int| 0 <= k < init.len() && init[k].id == id;
                assert(evs[k] == init[k]);
            }
            if exists|k: int| 0 <= k < evs.len() && evs[k].id == id {
                let k = choose|k: int| 0 <= k < evs.len() && evs[k].id == id;
                if k < last {
                    assert(init[k] == evs[k]);
                    assert(loaded(init).events.contains_key(id));
                }
            }
        }
        assert forall|k: int| 0 <= k < evs.len() implies g.next_id > (#[trigger] evs[k]).id by {
            if k < last {
                assert(init[k] == evs[k]);
            }
        }
        if g.next_id != evs.last().id + 1 {
            if init.len() == 0 {
                assert(false);
            } else {
                let k = choose|k: int| 0 <= k < init.len() && loaded(init).next_id == (#[trigger] init[k]).id + 1;
                assert(evs[k] == init[k]);
                assert(g.next_id == evs[k].id + 1);
            }
        }
    }
}

impl CausalGraph {
    /// The structure of a saved memory: the saved events loaded in order
    /// into an empty structure.
    pub fn load_saved(events: &Vec<StoredEvent>) -> (g: CausalGraph)
        requires
            forall|k: int| 0 <= k < events@.len() ==> (#[trigger] events@[k]).id < u64::MAX,
        ensures
            g@ == loaded(events.deep_view()),
    {
        let mut g = CausalGraph::new();
        let ghost evs = events.deep_view();
        let mut i: usize = 0;
        assert(evs.take(0) =~= Seq::<StoredEventView>::empty());
        assert(g@ == loaded(evs.take(0))) by {
            assert(g@.events =~= loaded(evs.take(0)).events);
        }
        while i < events.len()
            invariant
                i <= events@.len(),
                evs == events.deep_view(),
                forall|k: int| 0 <= k < events@.len() ==> (#[trigger] events@[k]).id < u64::MAX,
                g@ == loaded(evs.take(i as int)),
            decreases events.len() - i,
        {
            let e = &events[i];
            let ghost before = g@;
            g.load_event(e.id, e.depth as usize);
            proof {
                let t = evs.take(i + 1);
                assert(t.drop_last() =~= evs.take(i as int));
                assert(t.last() == evs[i as int]);
                assert(evs[i as int] == e.deep_view());
                assert(g@.events =~= loaded(t).events);
            }
            i += 1;
        }
        assert(evs.take(events.len() as int) =~= evs);
        g
    }
}

/// The structure is closed: each event's prerequisites are known events,
/// it follows exactly its prerequisites and all they follow, and its depth
/// is one more than the deepest of them (0 where it has none).
pub open spec fn closed(g: Map<u64, LinksView>) -> bool {
    forall|a: u64| #[trigger] g.contains_key(a) ==> {
        &&& g[a].prereqs.subset_of(g.dom())
        &&& g[a].closure == closure_after(g, g[a].prereqs)
        &&& depth_after(g, g[a].prereqs, g[a].depth)
    }
}

/// An empty structure is closed.
pub proof fn lemma_empty_closed()
    ensures
        closed(Map::<u64, LinksView>::empty()),
{
}

/// What events among known prerequisites follow, and how deep they lie, is
/// the same once an event under a fresh number is added.
proof fn lemma_insert_fresh_same(g: Map<u64, LinksView>, id: u64, l: LinksView, ps: Set<u64>, d: nat)
    requires
        !g.contains_key(id),
        ps.subset_of(g.dom()),
    ensures
        closure_after(g.insert(id, l), ps) == closure_after(g, ps),
        depth_after(g.insert(id, l), ps, d) == depth_after(g, ps, d),
{
    let h = g.insert(id, l);
    assert forall|p: u64| ps.contains(p) implies h.contains_key(p) == g.contains_key(p) && h[p] == g[p] by {
        assert(g.contains_key(p));
    }
    assert(inherited(h, ps) =~= inherited(g, ps)) by {
        assert forall|q: u64| inherited(h, ps).contains(q) implies inherited(g, ps).contains(q) by {
            let p = choose|p: u64| #[trigger] ps.contains(p) && h.contains_key(p) && h[p].closure.contains(q);
            assert(g.contains_key(p) && g[p].closure.contains(q));
        }
        assert forall|q: u64| inherited(g, ps).contains(q) implies inherited(h, ps).contains(q) by {
            let p = choose|p: u64| #[trigger] ps.contains(p) && g.contains_key(p) && g[p].closure.contains(q);
            assert(h.contains_key(p) && h[p].closure.contains(q));
        }
    }
    if depth_after(g, ps, d) {
        assert forall|p: u64| #[trigger] ps.contains(p) && h.contains_key(p) implies h[p].depth + 1 <= d by {
            assert(g.contains_key(p));
        }
        if d != 0 {
            let p = choose|p: u64| #[trigger] ps.contains(p) && g.contains_key(p) && g[p].depth + 1 == d;
            assert(h.contains_key(p) && h[p].depth + 1 == d);
        }
    }
    if depth_after(h, ps, d) {
        assert forall|p: u64| #[trigger] ps.contains(p) && g.contains_key(p) implies g[p].depth + 1 <= d by {
            assert(h.contains_key(p));
        }
        if d != 0 {
            let p = choose|p: u64| #[trigger] ps.contains(p) && h.contains_key(p) && h[p].depth + 1 == d;
            assert(g.contains_key(p) && g[p].depth + 1 == d);
        }
    }
}

/// Adding an event after known prerequisites keeps the structure closed:
/// the new event follows exactly its prerequisites and all they follow,
/// lies one deeper than the deepest of them, and no event is changed.
pub proof fn lemma_add_event_keeps_closed(before: GraphView, after: GraphView, prereqs: Set<u64>, links: LinksView)
    requires
        closed(before.events),
        numbers_below_next(before),
        prereqs.subset_of(before.events.dom()),
        links.prereqs == prereqs,
        links.closure == closure_after(before.events, prereqs),
        depth_after(before.events, prereqs, links.depth),
        after.events == before.events.insert(before.next_id, links),
    ensures
        closed(after.events),
{
    let g = before.events;
    let id = before.next_id;
    assert(!g.contains_key(id));
    let h = after.events;
    assert forall|a: u64| #[trigger] h.contains_key(a) implies {
        &&& h[a].prereqs.subset_of(h.dom())
        &&& h[a].closure == closure_after(h, h[a].prereqs)
        &&& depth_after(h, h[a].prereqs, h[a].depth)
    } by {
        if a == id {
            lemma_insert_fresh_same(g, id, links, prereqs, links.depth);
        } else {
            assert(g.contains_key(a));
            lemma_insert_fresh_same(g, id, links, g[a].prereqs, g[a].depth);
        }
    }
}

/// A new event follows each of its prerequisites.
pub proof fn lemma_closure_has_prereqs(g: Map<u64, LinksView>, prereqs: Set<u64>)
    ensures
        prereqs.subset_of(closure_after(g, prereqs)),
{
}

/// Following is transitive: a new event follows everything its known
/// prerequisites follow.
pub proof fn lemma_closure_transitive(g: Map<u64, LinksView>, prereqs: Set<u64>, p: u64, q: u64)
    requires
        prereqs.contains(p),
        g.contains_key(p),
        g[p].closure.contains(q),
    ensures
        closure_after(g, prereqs).contains(q),
{
    assert(inherited(g, prereqs).contains(q));
}

/// A new event lies deeper than each of its known prerequisites.
pub proof fn lemma_depth_exceeds_prereqs(g: Map<u64, LinksView>, prereqs: Set<u64>, d: nat, p: u64)
    requires
        depth_after(g, prereqs, d),
        prereqs.contains(p),
        g.contains_key(p),
    ensures
        g[p].depth < d,
{
}

/// Where every number lies below the next, adding an event keeps it so,
/// and the new event's number was not in use.
pub proof fn lemma_add_event_fresh(before: GraphView, after: GraphView, id: u64, links: LinksView)
    requires
        numbers_below_next(before),
        id == before.next_id,
        after.next_id == id + 1,
        after.events == before.events.insert(id, links),
    ensures
        !before.events.contains_key(id),
        numbers_below_next(after),
{
}

/// Loading a saved event keeps every number below the next.
pub proof fn lemma_load_event_keeps_numbers(before: GraphView, after: GraphView, id: u64, links: LinksView)
    requires
        numbers_below_next(before),
        after.events == before.events.insert(id, links),
        after.next_id == if before.next_id > id + 1 {
            before.next_id as int
        } else {
            id + 1
        },
    ensures
        numbers_below_next(after),
{
}

} // verus!
