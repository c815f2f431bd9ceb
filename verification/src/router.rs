//! A router that maps input sockets to output sockets and back.
use vstd::prelude::*;
use crate::ip::{IpAddr, SocketAddr};
use crate::route_table::RouteTable;
use std::collections::HashSet;

verus! {

broadcast use vstd::std_specs::hash::group_hash_axioms;

/// Each map's values are keys of the other: every output a forward route
/// names has a backward route, and every input a backward route names has a
/// forward route.
pub open spec fn linked(f: Map<SocketAddr, SocketAddr>, b: Map<SocketAddr, SocketAddr>) -> bool {
    &&& forall|i: SocketAddr| #[trigger] f.dom().contains(i) ==> b.dom().contains(f[i])
    &&& forall|o: SocketAddr| #[trigger] b.dom().contains(o) ==> f.dom().contains(b[o])
}

/// `m` with the pairs inserted one after the other.
pub open spec fn insert_all(m: Map<SocketAddr, SocketAddr>, ps: Seq<(SocketAddr, SocketAddr)>) -> Map<
    SocketAddr,
    SocketAddr,
>
    decreases ps.len(),
{
    if ps.len() == 0 {
        m
    } else {
        insert_all(m, ps.drop_last()).insert(ps.last().0, ps.last().1)
    }
}

/// The pairs with their sides swapped.
pub open spec fn swapped(ps: Seq<(SocketAddr, SocketAddr)>) -> Seq<(SocketAddr, SocketAddr)> {
    Seq::new(ps.len(), |i: int| (ps[i].1, ps[i].0))
}

/// Input port `ips[i]` paired with output port `ops[i]`, as far as both go.
pub open spec fn paired_routes(in_ip: IpAddr, ips: Seq<u16>, out_ip: IpAddr, ops: Seq<u16>) -> Seq<
    (SocketAddr, SocketAddr),
> {
    let n = if ips.len() <= ops.len() {
        ips.len()
    } else {
        ops.len()
    };
    Seq::new(
        n,
        |i: int| (SocketAddr { ip: in_ip, port: ips[i] }, SocketAddr { ip: out_ip, port: ops[i] }),
    )
}

/// Routes from input sockets to output sockets, and back.
#[derive(Debug)]
pub struct Router {
    forward_routes: RouteTable,
    backward_routes: RouteTable,
}

impl Router {
    #[verifier::type_invariant]
    closed spec fn routes_linked(self) -> bool {
        linked(self.forward_routes@, self.backward_routes@)
    }

    /// Maps each input to its output.
    pub closed spec fn forward(&self) -> Map<SocketAddr, SocketAddr> {
        self.forward_routes@
    }

    /// Maps each output to its input.
    pub closed spec fn backward(&self) -> Map<SocketAddr, SocketAddr> {
        self.backward_routes@
    }

    /// A router without routes.
    pub fn new() -> (r: Router)
        ensures
            r.forward() == Map::<SocketAddr, SocketAddr>::empty(),
            r.backward() == Map::<SocketAddr, SocketAddr>::empty(),
            linked(r.forward(), r.backward()),
    {
        Router { forward_routes: RouteTable::new(), backward_routes: RouteTable::new() }
    }

    /// Routes `input` to `output` and `output` back to `input`.
    pub fn add_route(&mut self, input: SocketAddr, output: SocketAddr)
        ensures
            final(self).forward() == old(self).forward().insert(input, output),
            final(self).backward() == old(self).backward().insert(output, input),
            linked(final(self).forward(), final(self).backward()),
    {
        proof {
            use_type_invariant(&*self);
            law_add_route_keeps_linked(self.forward(), self.backward(), input, output);
        }
        let mut whole = Router::new();
        std::mem::swap(&mut whole, self);
        let Router { forward_routes: mut f, backward_routes: mut b } = whole;
        f.insert(input, output);
        b.insert(output, input);
        *self = Router { forward_routes: f, backward_routes: b };
        proof {
            use_type_invariant(&*self);
        }
    }

    /// `add_route`, taking and giving back the router.
    pub fn route(self, input: SocketAddr, output: SocketAddr) -> (r: Self)
        ensures
            r.forward() == self.forward().insert(input, output),
            r.backward() == self.backward().insert(output, input),
            linked(r.forward(), r.backward()),
    {
        let mut s = self;
        s.add_route(input, output);
        s
    }

    /// Routes each port of `input_ip` to the same port of `output_ip`, in
    /// the order of `ports`.
    pub fn add_direct_routes(&mut self, input_ip: IpAddr, output_ip: IpAddr, ports: &[u16])
        ensures
            final(self).forward() == insert_all(
                old(self).forward(),
                paired_routes(input_ip, ports@, output_ip, ports@),
            ),
            final(self).backward() == insert_all(
                old(self).backward(),
                swapped(paired_routes(input_ip, ports@, output_ip, ports@)),
            ),
            linked(final(self).forward(), final(self).backward()),
    {
        self.add_pairs(input_ip, ports, output_ip, ports);
        proof {
            use_type_invariant(&*self);
        }
    }

    /// `add_direct_routes`, taking and giving back the router.
    pub fn direct_routes(self, input_ip: IpAddr, output_ip: IpAddr, ports: &[u16]) -> (r: Self)
        ensures
            r.forward() == insert_all(
                self.forward(),
                paired_routes(input_ip, ports@, output_ip, ports@),
            ),
            r.backward() == insert_all(
                self.backward(),
                swapped(paired_routes(input_ip, ports@, output_ip, ports@)),
            ),
            linked(r.forward(), r.backward()),
    {
        let mut s = self;
        s.add_direct_routes(input_ip, output_ip, ports);
        s
    }

    /// Routes the `i`-th input port to the `i`-th output port, as far as
    /// both lists go; `None` where their lengths differ (the routes of the
    /// common part are added all the same).
    pub fn add_offset_routes(
        &mut self,
        input_ip: IpAddr,
        input_ports: &[u16],
        output_ip: IpAddr,
        output_ports: &[u16],
    ) -> (r: Option<()>)
        ensures
            r is Some <==> input_ports@.len() == output_ports@.len(),
            final(self).forward() == insert_all(
                old(self).forward(),
                paired_routes(input_ip, input_ports@, output_ip, output_ports@),
            ),
            final(self).backward() == insert_all(
                old(self).backward(),
                swapped(paired_routes(input_ip, input_ports@, output_ip, output_ports@)),
            ),
            linked(final(self).forward(), final(self).backward()),
    {
        self.add_pairs(input_ip, input_ports, output_ip, output_ports);
        proof {
            use_type_invariant(&*self);
        }
        if input_ports.len() == output_ports.len() {
            Some(())
        } else {
            None
        }
    }

    /// `add_offset_routes`, taking and giving back the router; always
    /// `Some`, whatever the lengths.
    pub fn offset_routes(
        self,
        input_ip: IpAddr,
        input_ports: &[u16],
        output_ip: IpAddr,
        output_ports: &[u16],
    ) -> (r: Option<Self>)
        ensures
            r matches Some(s) && s.forward() == insert_all(
                self.forward(),
                paired_routes(input_ip, input_ports@, output_ip, output_ports@),
            ) && s.backward() == insert_all(
                self.backward(),
                swapped(paired_routes(input_ip, input_ports@, output_ip, output_ports@)),
            ) && linked(s.forward(), s.backward()),
    {
        let mut s = self;
        let _ = s.add_offset_routes(input_ip, input_ports, output_ip, output_ports);
        Some(s)
    }

    fn add_pairs(&mut self, input_ip: IpAddr, ips: &[u16], output_ip: IpAddr, ops: &[u16])
        ensures
            final(self).forward() == insert_all(
                old(self).forward(),
                paired_routes(input_ip, ips@, output_ip, ops@),
            ),
            final(self).backward() == insert_all(
                old(self).backward(),
                swapped(paired_routes(input_ip, ips@, output_ip, ops@)),
            ),
    {
        let n = if ips.len() <= ops.len() {
            ips.len()
        } else {
            ops.len()
        };
        let ghost ps = paired_routes(input_ip, ips@, output_ip, ops@);
        let ghost f0 = self.forward();
        let ghost b0 = self.backward();
        let mut i: usize = 0;
        assert(ps.take(0) =~= Seq::<(SocketAddr, SocketAddr)>::empty());
        assert(swapped(ps.take(0)) =~= Seq::<(SocketAddr, SocketAddr)>::empty());
        while i < n
            invariant
                i <= n,
                n == ps.len(),
                n <= ips@.len(),
                n <= ops@.len(),
                ps == paired_routes(input_ip, ips@, output_ip, ops@),
                self.forward() == insert_all(f0, ps.take(i as int)),
                self.backward() == insert_all(b0, swapped(ps.take(i as int))),
            decreases n - i,
        {
            self.add_route(SocketAddr::new(input_ip, ips[i]), SocketAddr::new(output_ip, ops[i]));
            proof {
                assert(ps.take(i + 1).drop_last() =~= ps.take(i as int));
                assert(swapped(ps.take(i + 1)).drop_last() =~= swapped(ps.take(i as int)));
            }
            i = i + 1;
        }
        assert(ps.take(n as int) =~= ps);
    }

    /// The ports of the input sockets.
    pub fn required_ports(&self) -> (r: HashSet<u16>)
        ensures
            forall|p: u16|
                r@.contains(p) <==> exists|k: SocketAddr| #[trigger]
                    self.forward().dom().contains(k) && k.port == p,
    {
        let keys = self.forward_routes.keys();
        let mut r: HashSet<u16> = HashSet::new();
        let mut i: usize = 0;
        while i < keys.len()
            invariant
                i <= keys@.len(),
                forall|k: SocketAddr| keys@.contains(k) <==> self.forward().dom().contains(k),
                forall|p: u16|
                    r@.contains(p) <==> exists|j: int| 0 <= j < i && #[trigger] keys@[j].port == p,
            decreases keys@.len() - i,
        {
            r.insert(keys[i].port);
            proof {
                assert forall|p: u16|
                    r@.contains(p) <==> exists|j: int| 0 <= j < i + 1 && #[trigger] keys@[j].port
                        == p by {
                    if p == keys@[i as int].port {
                        assert(keys@[i as int].port == p);
                    }
                }
            }
            i = i + 1;
        }
        proof {
            assert forall|p: u16|
                r@.contains(p) <==> exists|k: SocketAddr| #[trigger]
                    self.forward().dom().contains(k) && k.port == p by {
                if r@.contains(p) {
                    let j = choose|j: int| 0 <= j < keys@.len() && #[trigger] keys@[j].port == p;
                    assert(keys@.contains(keys@[j]));
                }
                if exists|k: SocketAddr| #[trigger] self.forward().dom().contains(k) && k.port == p {
                    let k = choose|k: SocketAddr| #[trigger]
                        self.forward().dom().contains(k) && k.port == p;
                    assert(keys@.contains(k));
                    let j = choose|j: int| 0 <= j < keys@.len() && keys@[j] == k;
                    assert(keys@[j].port == p);
                }
            }
        }
        r
    }

    /// The keys of a table, each once.
    pub fn required_sockets(routes: &RouteTable) -> (r: Vec<SocketAddr>)
        ensures
            r@.no_duplicates(),
            forall|k: SocketAddr| r@.contains(k) <==> routes@.dom().contains(k),
    {
        routes.keys()
    }

    pub fn get_forward_routes(&self) -> (r: &RouteTable)
        ensures
            r@ == self.forward(),
    {
        &self.forward_routes
    }

    pub fn get_backward_routes(&self) -> (r: &RouteTable)
        ensures
            r@ == self.backward(),
    {
        &self.backward_routes
    }

    pub fn to_forward_backward_routes(self) -> (r: (RouteTable, RouteTable))
        ensures
            r.0@ == self.forward(),
            r.1@ == self.backward(),
    {
        (self.forward_routes, self.backward_routes)
    }
}

impl Default for Router {
    /// A router without routes.
    fn default() -> (r: Self)
        ensures
            r.forward() == Map::<SocketAddr, SocketAddr>::empty(),
            r.backward() == Map::<SocketAddr, SocketAddr>::empty(),
    {
        Router::new()
    }
}

/// Adding a route keeps the two maps linked.
pub proof fn law_add_route_keeps_linked(
    f: Map<SocketAddr, SocketAddr>,
    b: Map<SocketAddr, SocketAddr>,
    input: SocketAddr,
    output: SocketAddr,
)
    requires
        linked(f, b),
    ensures
        linked(f.insert(input, output), b.insert(output, input)),
{
}

/// After a route is added, the input looks up the output and the output
/// looks up the input.
pub proof fn law_route_then_lookup(
    f: Map<SocketAddr, SocketAddr>,
    b: Map<SocketAddr, SocketAddr>,
    input: SocketAddr,
    output: SocketAddr,
)
    ensures
        f.insert(input, output)[input] == output,
        b.insert(output, input)[output] == input,
        f.insert(input, output).dom().contains(input),
        b.insert(output, input).dom().contains(output),
{
}

/// What inserting pairs one after the other leaves at a key: the value of the
/// last pair with that key, else what was there before.
proof fn lemma_insert_all_at(m: Map<SocketAddr, SocketAddr>, ps: Seq<(SocketAddr, SocketAddr)>, k: SocketAddr)
    ensures
        (exists|j: int| 0 <= j < ps.len() && ps[j].0 == k) ==> insert_all(m, ps).dom().contains(k)
            && exists|j: int|
            0 <= j < ps.len() && ps[j].0 == k && insert_all(m, ps)[k] == ps[j].1 && forall|l: int|
                j < l < ps.len() ==> ps[l].0 != k,
        !(exists|j: int| 0 <= j < ps.len() && ps[j].0 == k) ==> insert_all(m, ps).dom().contains(k)
            == m.dom().contains(k) && insert_all(m, ps)[k] == m[k],
    decreases ps.len(),
{
    if ps.len() > 0 {
        let init = ps.drop_last();
        lemma_insert_all_at(m, init, k);
        let last = ps.len() - 1;
        if ps[last].0 == k {
            assert(ps.last() == ps[last]);
        } else {
            assert(ps.last() == ps[last]);
            if exists|j: int| 0 <= j < ps.len() && ps[j].0 == k {
                let j0 = choose|j: int| 0 <= j < ps.len() && ps[j].0 == k;
                assert(init[j0] == ps[j0]);
                let j = choose|j: int|
                    0 <= j < init.len() && init[j].0 == k && insert_all(m, init)[k] == init[j].1
                        && forall|l: int| j < l < init.len() ==> init[l].0 != k;
                assert(ps[j] == init[j]);
                assert forall|l: int| j < l < ps.len() implies ps[l].0 != k by {
                    if l < init.len() {
                        assert(init[l] == ps[l]);
                    }
                }
            } else {
                assert forall|j: int| 0 <= j < init.len() implies init[j].0 != k by {
                    assert(init[j] == ps[j]);
                }
            }
        }
    }
}

/// Routing `ips[i]` to `ops[i]` gives one route per position both port lists
/// have: every listed input port (at every position below the shorter
/// length) gets a forward route to the output address, to `ops[i]` itself
/// where no other such position lists the same input port; every other
/// input socket keeps what it had.
pub proof fn law_paired_routes_forward(
    m: Map<SocketAddr, SocketAddr>,
    in_ip: IpAddr,
    ips: Seq<u16>,
    out_ip: IpAddr,
    ops: Seq<u16>,
    k: SocketAddr,
)
    ensures
        paired_routes(in_ip, ips, out_ip, ops).len() <= ips.len(),
        paired_routes(in_ip, ips, out_ip, ops).len() <= ops.len(),
        paired_routes(in_ip, ips, out_ip, ops).len() == ips.len()
            || paired_routes(in_ip, ips, out_ip, ops).len() == ops.len(),
        forall|i: int|
            0 <= i < ips.len() && 0 <= i < ops.len() && k == (SocketAddr { ip: in_ip, port: ips[i] })
                ==> insert_all(m, paired_routes(in_ip, ips, out_ip, ops)).dom().contains(k)
                && insert_all(m, paired_routes(in_ip, ips, out_ip, ops))[k].ip == out_ip,
        forall|i: int|
            0 <= i < ips.len() && 0 <= i < ops.len() && k == (SocketAddr { ip: in_ip, port: ips[i] })
                && (forall|j: int| 0 <= j < ips.len() && 0 <= j < ops.len() && j != i ==> ips[j] != ips[i])
                ==> insert_all(m, paired_routes(in_ip, ips, out_ip, ops))[k] == (SocketAddr { ip: out_ip, port: ops[i] }),
        (forall|i: int| 0 <= i < ips.len() && 0 <= i < ops.len() ==> k != (SocketAddr { ip: in_ip, port: ips[i] }))
            ==> insert_all(m, paired_routes(in_ip, ips, out_ip, ops)).dom().contains(k) == m.dom().contains(k)
            && insert_all(m, paired_routes(in_ip, ips, out_ip, ops))[k] == m[k],
{
    let ps = paired_routes(in_ip, ips, out_ip, ops);
    lemma_insert_all_at(m, ps, k);
    assert forall|i: int|
        0 <= i < ips.len() && 0 <= i < ops.len() && k == (SocketAddr { ip: in_ip, port: ips[i] })
            implies insert_all(m, ps).dom().contains(k) && insert_all(m, ps)[k].ip == out_ip
            && ((forall|j: int| 0 <= j < ips.len() && 0 <= j < ops.len() && j != i ==> ips[j] != ips[i])
            ==> insert_all(m, ps)[k] == (SocketAddr { ip: out_ip, port: ops[i] })) by {
        assert(ps[i].0 == k);
        let j = choose|j: int|
            0 <= j < ps.len() && ps[j].0 == k && insert_all(m, ps)[k] == ps[j].1 && forall|l: int|
                j < l < ps.len() ==> ps[l].0 != k;
        if forall|j2: int| 0 <= j2 < ips.len() && 0 <= j2 < ops.len() && j2 != i ==> ips[j2] != ips[i] {
            assert(ips[j] == ips[i]);
        }
    }
    if forall|i: int| 0 <= i < ips.len() && 0 <= i < ops.len() ==> k != (SocketAddr { ip: in_ip, port: ips[i] }) {
        assert forall|j: int| 0 <= j < ps.len() implies ps[j].0 != k by {
            assert(ps[j].0 == SocketAddr { ip: in_ip, port: ips[j] });
        }
    }
}

/// The backward routes of paired ports: every listed output port (at every
/// position below the shorter length) gets a backward route to the input
/// address, to `ips[i]` itself where no other such position lists the same
/// output port; every other output socket keeps what it had.
pub proof fn law_paired_routes_backward(
    m: Map<SocketAddr, SocketAddr>,
    in_ip: IpAddr,
    ips: Seq<u16>,
    out_ip: IpAddr,
    ops: Seq<u16>,
    k: SocketAddr,
)
    ensures
        forall|i: int|
            0 <= i < ips.len() && 0 <= i < ops.len() && k == (SocketAddr { ip: out_ip, port: ops[i] })
                ==> insert_all(m, swapped(paired_routes(in_ip, ips, out_ip, ops))).dom().contains(k)
                && insert_all(m, swapped(paired_routes(in_ip, ips, out_ip, ops)))[k].ip == in_ip,
        forall|i: int|
            0 <= i < ips.len() && 0 <= i < ops.len() && k == (SocketAddr { ip: out_ip, port: ops[i] })
                && (forall|j: int| 0 <= j < ips.len() && 0 <= j < ops.len() && j != i ==> ops[j] != ops[i])
                ==> insert_all(m, swapped(paired_routes(in_ip, ips, out_ip, ops)))[k] == (SocketAddr { ip: in_ip, port: ips[i] }),
        (forall|i: int| 0 <= i < ips.len() && 0 <= i < ops.len() ==> k != (SocketAddr { ip: out_ip, port: ops[i] }))
            ==> insert_all(m, swapped(paired_routes(in_ip, ips, out_ip, ops))).dom().contains(k) == m.dom().contains(k)
            && insert_all(m, swapped(paired_routes(in_ip, ips, out_ip, ops)))[k] == m[k],
{
    let ps = swapped(paired_routes(in_ip, ips, out_ip, ops));
    lemma_insert_all_at(m, ps, k);
    assert forall|i: int|
        0 <= i < ips.len() && 0 <= i < ops.len() && k == (SocketAddr { ip: out_ip, port: ops[i] })
            implies insert_all(m, ps).dom().contains(k) && insert_all(m, ps)[k].ip == in_ip
            && ((forall|j: int| 0 <= j < ips.len() && 0 <= j < ops.len() && j != i ==> ops[j] != ops[i])
            ==> insert_all(m, ps)[k] == (SocketAddr { ip: in_ip, port: ips[i] })) by {
        assert(ps[i].0 == k);
        let j = choose|j: int|
            0 <= j < ps.len() && ps[j].0 == k && insert_all(m, ps)[k] == ps[j].1 && forall|l: int|
                j < l < ps.len() ==> ps[l].0 != k;
        if forall|j2: int| 0 <= j2 < ips.len() && 0 <= j2 < ops.len() && j2 != i ==> ops[j2] != ops[i] {
            assert(ops[j] == ops[i]);
        }
    }
    if forall|i: int| 0 <= i < ips.len() && 0 <= i < ops.len() ==> k != (SocketAddr { ip: out_ip, port: ops[i] }) {
        assert forall|j: int| 0 <= j < ps.len() implies ps[j].0 != k by {
            assert(ps[j].0 == SocketAddr { ip: out_ip, port: ops[j] });
        }
    }
}

} // verus!
