//! Splitting a train's unrolled schedule into polylines along the drawn
//! corridor.
use vstd::prelude::*;

use crate::axis::{indices_map, StationAxis};
use crate::multimap_spec::{inserted, multimap_contents};
use crate::train::IterateScheduleEntry;
use crate::types::{StationID, Time};

verus! {

/// A polyline node: a time and a position on the station axis.
#[derive(Debug, Clone, Copy, PartialEq, Eq, Structural)]
pub struct EdgeNode {
    pub time: Time,
    pub index: usize,
}

/// Positions on the axis that are equal or next to each other.
pub open spec fn adjacent_or_same(a: usize, b: usize) -> bool {
    a == b || a + 1 == b || b + 1 == a
}

/// Consecutive nodes dwell at one position or step to a neighbouring one.
pub open spec fn steps_adjacent(p: Seq<EdgeNode>) -> bool {
    forall|i: int| 0 <= i < p.len() - 1 ==> adjacent_or_same(#[trigger] p[i].index, p[i + 1].index)
}

/// The node is drawn at a position of the axis where the station of some
/// entry stands, at that entry's arrival or departure.
pub open spec fn node_from_entries(nd: EdgeNode, s: Seq<StationID>, entries: Seq<IterateScheduleEntry>) -> bool {
    &&& nd.index < s.len()
    &&& exists|k: int|
        0 <= k < entries.len() && s[nd.index as int] == (#[trigger] entries[k]).original_entry.station
            && (nd.time == entries[k].arrival || nd.time == entries[k].departure)
}

pub open spec fn polyline_ok(p: Seq<EdgeNode>, s: Seq<StationID>, entries: Seq<IterateScheduleEntry>) -> bool {
    &&& steps_adjacent(p)
    &&& forall|i: int| 0 <= i < p.len() ==> node_from_entries(#[trigger] p[i], s, entries)
}

/// The nodes an entry adds at position `g`: its arrival, and its departure
/// when it differs.
pub open spec fn entry_nodes(e: IterateScheduleEntry, g: usize) -> Seq<EdgeNode> {
    if e.arrival == e.departure {
        seq![EdgeNode { time: e.arrival, index: g }]
    } else {
        seq![EdgeNode { time: e.arrival, index: g }, EdgeNode { time: e.departure, index: g }]
    }
}

/// An active polyline and the position it last reached.
pub type Active = (Seq<EdgeNode>, usize);

/// The first active polyline from `i` on whose last position is next to `g`,
/// or the length.
pub open spec fn first_adjacent(l: Seq<Active>, g: usize, i: int) -> int
    decreases l.len() - i,
{
    if i < 0 || i >= l.len() {
        l.len() as int
    } else if l[i].1 + 1 == g || g + 1 == l[i].1 {
        i
    } else {
        first_adjacent(l, g, i + 1)
    }
}

/// Places the entry at position `g`: it extends the first active polyline
/// next to `g`, which leaves the active ones, or starts a new one.
pub open spec fn place_at(st: (Seq<Active>, Seq<Active>), e: IterateScheduleEntry, g: usize) -> (Seq<Active>, Seq<Active>) {
    let l = st.0;
    let pos = first_adjacent(l, g, 0);
    if pos < l.len() {
        (l.remove(pos), st.1.push((l[pos].0 + entry_nodes(e, g), g)))
    } else {
        (l, st.1.push((entry_nodes(e, g), g)))
    }
}

/// Places the entry at each of the positions `gs` in turn: the active
/// polylines left over, and the placed ones.
pub open spec fn place_all(l: Seq<Active>, e: IterateScheduleEntry, gs: Seq<usize>) -> (Seq<Active>, Seq<Active>)
    decreases gs.len(),
{
    if gs.len() == 0 {
        (l, Seq::empty())
    } else {
        place_at(place_all(l, e, gs.drop_last()), e, gs.last())
    }
}

/// The node lists of active polylines.
pub open spec fn sealed(l: Seq<Active>) -> Seq<Seq<EdgeNode>> {
    l.map_values(|a: Active| a.0)
}

/// The sealed and the active polylines after the entries, for the station
/// positions `m`.
pub open spec fn edge_state(entries: Seq<IterateScheduleEntry>, m: Map<u64, Seq<usize>>) -> (Seq<Seq<EdgeNode>>, Seq<Active>)
    decreases entries.len(),
{
    if entries.len() == 0 {
        (Seq::empty(), Seq::empty())
    } else {
        let st = edge_state(entries.drop_last(), m);
        let e = entries.last();
        if m.contains_key(e.original_entry.station) {
            let placed = place_all(st.1, e, m[e.original_entry.station]);
            (st.0 + sealed(placed.0), placed.1)
        } else {
            (st.0 + sealed(st.1), Seq::empty())
        }
    }
}

/// The polylines of at least two nodes, in order.
pub open spec fn long_only(s: Seq<Seq<EdgeNode>>) -> Seq<Seq<EdgeNode>>
    decreases s.len(),
{
    if s.len() == 0 {
        Seq::empty()
    } else if s.last().len() >= 2 {
        long_only(s.drop_last()).push(s.last())
    } else {
        long_only(s.drop_last())
    }
}

/// The polylines that the entries give, for the station positions `m`.
pub open spec fn edges_of(entries: Seq<IterateScheduleEntry>, m: Map<u64, Seq<usize>>) -> Seq<Seq<EdgeNode>> {
    let st = edge_state(entries, m);
    long_only(st.0 + sealed(st.1))
}

pub open spec fn edges_view(v: Seq<Vec<EdgeNode>>) -> Seq<Seq<EdgeNode>> {
    v.map_values(|p: Vec<EdgeNode>| p@)
}

pub open spec fn local_view(v: Seq<(Vec<EdgeNode>, usize)>) -> Seq<Active> {
    v.map_values(|p: (Vec<EdgeNode>, usize)| (p.0@, p.1))
}

/// Every position listed for a station is a position of that station.
pub proof fn lemma_indices_map(s: Seq<StationID>)
    requires
        s.len() <= usize::MAX,
    ensures
        forall|k: u64, i: int|
            indices_map(s).contains_key(k) && 0 <= i < indices_map(s)[k].len() ==> (#[trigger] indices_map(s)[k][i]) < s.len()
                && s[indices_map(s)[k][i] as int] == k,
    decreases s.len(),
{
    if s.len() > 0 {
        let p = s.drop_last();
        lemma_indices_map(p);
        let m = indices_map(s);
        assert forall|k: u64, i: int|
            m.contains_key(k) && 0 <= i < m[k].len() implies (#[trigger] m[k][i]) < s.len() && s[m[k][i] as int] == k by {
            let mp = indices_map(p);
            let last = (s.len() - 1) as usize;
            assert(m == inserted(mp, s.last(), last));
            if k == s.last() {
                if mp.contains_key(k) {
                    assert(m[k] == mp[k].push(last));
                    if i < mp[k].len() {
                        assert(m[k][i] == mp[k][i]);
                        assert(s[mp[k][i] as int] == p[mp[k][i] as int]);
                    } else {
                        assert(m[k][i] == last);
                    }
                } else {
                    assert(m[k] == seq![last]);
                    assert(m[k][i] == last);
                }
            } else {
                assert(m[k] == mp[k]);
                assert(s[mp[k][i] as int] == p[mp[k][i] as int]);
            }
        }
    }
}

proof fn lemma_push_ok(p: Seq<EdgeNode>, nd: EdgeNode, s: Seq<StationID>, entries: Seq<IterateScheduleEntry>)
    requires
        polyline_ok(p, s, entries),
        node_from_entries(nd, s, entries),
        p.len() > 0 ==> adjacent_or_same(p.last().index, nd.index),
    ensures
        polyline_ok(p.push(nd), s, entries),
{
    let q = p.push(nd);
    assert forall|i: int| 0 <= i < q.len() - 1 implies adjacent_or_same(#[trigger] q[i].index, q[i + 1].index) by {
        if i < p.len() - 1 {
            assert(q[i] == p[i] && q[i + 1] == p[i + 1]);
        } else {
            assert(q[i] == p.last());
        }
    }
    assert forall|i: int| 0 <= i < q.len() implies node_from_entries(#[trigger] q[i], s, entries) by {
        if i < p.len() {
            assert(q[i] == p[i]);
        }
    }
}

/// Appends the entry's nodes at position `g`: its arrival, and its departure
/// when it differs.
fn push_entry_nodes(p: &mut Vec<EdgeNode>, e: IterateScheduleEntry, g: usize, Ghost(s): Ghost<Seq<StationID>>, Ghost(entries): Ghost<Seq<IterateScheduleEntry>>)
    requires
        polyline_ok(old(p)@, s, entries),
        old(p)@.len() > 0 ==> adjacent_or_same(old(p)@.last().index, g),
        g < s.len(),
        exists|k: int| 0 <= k < entries.len() && #[trigger] entries[k] == e,
        s[g as int] == e.original_entry.station,
    ensures
        polyline_ok(final(p)@, s, entries),
        final(p)@.len() > old(p)@.len(),
        final(p)@.last().index == g,
        forall|i: int| 0 <= i < old(p)@.len() ==> #[trigger] final(p)@[i] == old(p)@[i],
        final(p)@ == old(p)@ + entry_nodes(e, g),
{
    let ghost start_nodes = p@;
    let ghost k = choose|k: int| 0 <= k < entries.len() && #[trigger] entries[k] == e;
    let a = EdgeNode { time: e.arrival, index: g };
    proof {
        assert(node_from_entries(a, s, entries));
        lemma_push_ok(p@, a, s, entries);
    }
    p.push(a);
    if e.arrival.0 != e.departure.0 {
        let d = EdgeNode { time: e.departure, index: g };
        proof {
            assert(node_from_entries(d, s, entries));
            lemma_push_ok(p@, d, s, entries);
        }
        p.push(d);
    }
    assert(p@ =~= start_nodes + entry_nodes(e, g));
}

fn step_adjacent(a: usize, b: usize) -> (r: bool)
    ensures
        r == (a + 1 == b || b + 1 == a),
{
    (a < b && b - a == 1) || (b < a && a - b == 1)
}

/// Splits a train's unrolled entries into polylines: a polyline extends when
/// the train reaches a position next to where it last stood, and is sealed
/// when the train leaves the drawn corridor or does not continue it.
/// Polylines of fewer than two nodes are dropped.
pub fn make_edges(axis: &StationAxis, entries: &Vec<IterateScheduleEntry>) -> (r: Vec<Vec<EdgeNode>>)
    requires
        multimap_contents(axis.station_indices) == indices_map(axis.stations_draw_info@),
    ensures
        edges_view(r@) == edges_of(entries@, multimap_contents(axis.station_indices)),
        forall|i: int| 0 <= i < r@.len() ==> (#[trigger] r@[i])@.len() >= 2,
        forall|i: int| 0 <= i < r@.len() ==> polyline_ok((#[trigger] r@[i])@, axis.stations_draw_info@, entries@),
{
    let ghost s = axis.stations_draw_info@;
    let ghost es = entries@;
    let ghost m = multimap_contents(axis.station_indices);
    let _n = axis.stations_draw_info.len();
    proof {
        lemma_indices_map(s);
    }
    let mut edges: Vec<Vec<EdgeNode>> = Vec::new();
    let mut local: Vec<(Vec<EdgeNode>, usize)> = Vec::new();
    let mut ei: usize = 0;
    assert(edges_view(edges@) =~= Seq::<Seq<EdgeNode>>::empty());
    assert(local_view(local@) =~= Seq::<Active>::empty());
    while ei < entries.len()
        invariant
            ei <= entries@.len(),
            es == entries@,
            s == axis.stations_draw_info@,
            m == multimap_contents(axis.station_indices),
            m == indices_map(s),
            forall|k: u64, i: int|
                indices_map(s).contains_key(k) && 0 <= i < indices_map(s)[k].len() ==> (#[trigger] indices_map(s)[k][i]) < s.len()
                    && s[indices_map(s)[k][i] as int] == k,
            forall|i: int| 0 <= i < edges@.len() ==> polyline_ok((#[trigger] edges@[i])@, s, es),
            forall|i: int| 0 <= i < local@.len() ==> polyline_ok((#[trigger] local@[i]).0@, s, es)
                && local@[i].0@.len() > 0 && local@[i].0@.last().index == local@[i].1,
            (edges_view(edges@), local_view(local@)) == edge_state(es.subrange(0, ei as int), m),
        decreases entries@.len() - ei,
    {
        let e = entries[ei];
        assert(es[ei as int] == e);
        let ghost pre = es.subrange(0, ei as int);
        let ghost nxt = es.subrange(0, ei + 1);
        assert(nxt.drop_last() =~= pre);
        assert(nxt.last() == e);
        match axis.indices_of(e.original_entry.station) {
            None => {
                seal_all(&mut edges, &mut local, Ghost(s), Ghost(es));
                assert(local_view(local@) =~= Seq::<Active>::empty());
            },
            Some(graph_idxs) => {
                let ghost l0 = local_view(local@);
                let ghost gs = graph_idxs@;
                let mut remaining: Vec<(Vec<EdgeNode>, usize)> = Vec::new();
                let mut gi: usize = 0;
                assert(gs.subrange(0, 0) =~= Seq::<usize>::empty());
                assert(local_view(remaining@) =~= Seq::<Active>::empty());
                while gi < graph_idxs.len()
                    invariant
                        gi <= graph_idxs@.len(),
                        gs == graph_idxs@,
                        graph_idxs@ == indices_map(s)[e.original_entry.station],
                        indices_map(s).contains_key(e.original_entry.station),
                        es == entries@,
                        0 <= ei < es.len(),
                        es[ei as int] == e,
                        forall|k: u64, i: int|
                            indices_map(s).contains_key(k) && 0 <= i < indices_map(s)[k].len() ==> (#[trigger] indices_map(s)[k][i]) < s.len()
                                && s[indices_map(s)[k][i] as int] == k,
                        forall|i: int| 0 <= i < local@.len() ==> polyline_ok((#[trigger] local@[i]).0@, s, es)
                            && local@[i].0@.len() > 0 && local@[i].0@.last().index == local@[i].1,
                        forall|i: int| 0 <= i < remaining@.len() ==> polyline_ok((#[trigger] remaining@[i]).0@, s, es)
                            && remaining@[i].0@.len() > 0 && remaining@[i].0@.last().index == remaining@[i].1,
                        (local_view(local@), local_view(remaining@)) == place_all(l0, e, gs.subrange(0, gi as int)),
                    decreases graph_idxs@.len() - gi,
                {
                    let g = graph_idxs[gi];
                    assert(g == indices_map(s)[e.original_entry.station][gi as int]);
                    let ghost lv = local_view(local@);
                    let ghost rv = local_view(remaining@);
                    assert(gs.subrange(0, gi + 1).drop_last() =~= gs.subrange(0, gi as int));
                    assert(gs.subrange(0, gi + 1).last() == g);
                    let mut pos: usize = 0;
                    while pos < local.len() && !step_adjacent(local[pos].1, g)
                        invariant
                            pos <= local@.len(),
                            lv == local_view(local@),
                            first_adjacent(lv, g, 0) == first_adjacent(lv, g, pos as int),
                        decreases local@.len() - pos,
                    {
                        pos = pos + 1;
                    }
                    if pos < local.len() {
                        let ghost before = local@;
                        let (mut matched, _) = local.remove(pos);
                        assert(before[pos as int].0 == matched);
                        push_entry_nodes(&mut matched, e, g, Ghost(s), Ghost(es));
                        let ghost mv = matched@;
                        remaining.push((matched, g));
                        proof {
                            assert forall|i: int| 0 <= i < local@.len() implies polyline_ok((#[trigger] local@[i]).0@, s, es)
                                && local@[i].0@.len() > 0 && local@[i].0@.last().index == local@[i].1 by {
                                if i < pos {
                                    assert(local@[i] == before[i + 0]);
                                } else {
                                    assert(local@[i] == before[i + 1]);
                                }
                            }
                            assert(local_view(local@) =~= lv.remove(pos as int));
                            assert(local_view(remaining@) =~= rv.push((lv[pos as int].0 + entry_nodes(e, g), g)));
                        }
                    } else {
                        let mut fresh: Vec<EdgeNode> = Vec::new();
                        push_entry_nodes(&mut fresh, e, g, Ghost(s), Ghost(es));
                        assert(fresh@ =~= entry_nodes(e, g));
                        remaining.push((fresh, g));
                        assert(local_view(remaining@) =~= rv.push((entry_nodes(e, g), g)));
                    }
                    gi = gi + 1;
                }
                assert(gs.subrange(0, gs.len() as int) =~= gs);
                seal_all(&mut edges, &mut local, Ghost(s), Ghost(es));
                local = remaining;
            },
        }
        ei = ei + 1;
    }
    assert(es.subrange(0, es.len() as int) =~= es);
    seal_all(&mut edges, &mut local, Ghost(s), Ghost(es));
    let ghost all = edges_view(edges@);
    assert(all == edge_state(es, m).0 + sealed(edge_state(es, m).1));
    let mut out: Vec<Vec<EdgeNode>> = Vec::new();
    let mut i: usize = 0;
    assert(edges_view(out@) =~= Seq::<Seq<EdgeNode>>::empty());
    assert(all.subrange(0, 0) =~= Seq::<Seq<EdgeNode>>::empty());
    while i < edges.len()
        invariant
            i <= edges@.len(),
            all == edges_view(edges@),
            edges_view(out@) == long_only(all.subrange(0, i as int)),
            forall|j: int| 0 <= j < edges@.len() ==> polyline_ok((#[trigger] edges@[j])@, s, es),
            forall|j: int| 0 <= j < out@.len() ==> (#[trigger] out@[j])@.len() >= 2 && polyline_ok(out@[j]@, s, es),
        decreases edges@.len() - i,
    {
        let ghost ov = edges_view(out@);
        assert(all.subrange(0, i + 1).drop_last() =~= all.subrange(0, i as int));
        assert(all.subrange(0, i + 1).last() == edges@[i as int]@);
        if edges[i].len() >= 2 {
            let c = clone_nodes(&edges[i]);
            out.push(c);
            assert(edges_view(out@) =~= ov.push(edges@[i as int]@));
        }
        i = i + 1;
    }
    assert(all.subrange(0, all.len() as int) =~= all);
    out
}

fn clone_nodes(v: &Vec<EdgeNode>) -> (r: Vec<EdgeNode>)
    ensures
        r@ == v@,
{
    let mut out: Vec<EdgeNode> = Vec::new();
    let mut q: usize = 0;
    while q < v.len()
        invariant
            q <= v@.len(),
            out@ == v@.subrange(0, q as int),
        decreases v@.len() - q,
    {
        out.push(v[q]);
        q = q + 1;
        assert(out@ =~= v@.subrange(0, q as int));
    }
    assert(v@.subrange(0, v@.len() as int) =~= v@);
    out
}

/// Moves every active polyline into the sealed ones.
fn seal_all(edges: &mut Vec<Vec<EdgeNode>>, local: &mut Vec<(Vec<EdgeNode>, usize)>, Ghost(s): Ghost<Seq<StationID>>, Ghost(es): Ghost<Seq<IterateScheduleEntry>>)
    requires
        forall|i: int| 0 <= i < old(edges)@.len() ==> polyline_ok((#[trigger] old(edges)@[i])@, s, es),
        forall|i: int| 0 <= i < old(local)@.len() ==> polyline_ok((#[trigger] old(local)@[i]).0@, s, es),
    ensures
        forall|i: int| 0 <= i < final(edges)@.len() ==> polyline_ok((#[trigger] final(edges)@[i])@, s, es),
        final(local)@.len() == 0,
        edges_view(final(edges)@) == edges_view(old(edges)@) + sealed(local_view(old(local)@)),
{
    let ghost e0 = edges_view(edges@);
    let ghost l0 = local_view(local@);
    while local.len() > 0
        invariant
            forall|i: int| 0 <= i < edges@.len() ==> polyline_ok((#[trigger] edges@[i])@, s, es),
            forall|i: int| 0 <= i < local@.len() ==> polyline_ok((#[trigger] local@[i]).0@, s, es),
            e0 + sealed(l0) == edges_view(edges@) + sealed(local_view(local@)),
        decreases local@.len(),
    {
        let ghost before = local@;
        let ghost ev = edges_view(edges@);
        let (nodes, _) = local.remove(0);
        assert(before[0].0 == nodes);
        assert forall|i: int| 0 <= i < local@.len() implies polyline_ok((#[trigger] local@[i]).0@, s, es) by {
            assert(local@[i] == before[i + 1]);
        }
        edges.push(nodes);
        proof {
            assert(edges_view(edges@) =~= ev.push(nodes@));
            assert(sealed(local_view(before)) =~= seq![nodes@] + sealed(local_view(local@)));
            assert(ev + sealed(local_view(before)) =~= edges_view(edges@) + sealed(local_view(local@)));
        }
    }
    assert(sealed(local_view(local@)) =~= Seq::<Seq<EdgeNode>>::empty());
    assert(edges_view(edges@) + sealed(local_view(local@)) =~= edges_view(edges@));
}

} // verus!
