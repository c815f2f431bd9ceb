//! A finite map from socket addresses to socket addresses.
use vstd::prelude::*;
use crate::ip::SocketAddr;

verus! {

/// The map that a list of entries stands for, later entries winning.
pub open spec fn map_of(es: Seq<(SocketAddr, SocketAddr)>) -> Map<SocketAddr, SocketAddr>
    decreases es.len(),
{
    if es.len() == 0 {
        Map::<SocketAddr, SocketAddr>::empty()
    } else {
        map_of(es.drop_last()).insert(es.last().0, es.last().1)
    }
}

pub open spec fn distinct_keys(es: Seq<(SocketAddr, SocketAddr)>) -> bool {
    forall|i: int, j: int| 0 <= i < j < es.len() ==> #[trigger] es[i].0 != #[trigger] es[j].0
}

pub open spec fn has_key(es: Seq<(SocketAddr, SocketAddr)>, k: SocketAddr) -> bool {
    exists|i: int| 0 <= i < es.len() && #[trigger] es[i].0 == k
}

/// A map from socket addresses to socket addresses.
#[derive(Debug)]
pub struct RouteTable {
    entries: Vec<(SocketAddr, SocketAddr)>,
}

impl View for RouteTable {
    type V = Map<SocketAddr, SocketAddr>;

    closed spec fn view(&self) -> Map<SocketAddr, SocketAddr> {
        map_of(self.entries@)
    }
}

proof fn lemma_map_of_dom(es: Seq<(SocketAddr, SocketAddr)>, k: SocketAddr)
    ensures
        map_of(es).dom().contains(k) <==> has_key(es, k),
        map_of(es).dom().finite(),
    decreases es.len(),
{
    if es.len() > 0 {
        let init = es.drop_last();
        lemma_map_of_dom(init, k);
        if has_key(init, k) {
            let i = choose|i: int| 0 <= i < init.len() && #[trigger] init[i].0 == k;
            assert(es[i].0 == k);
        }
        if has_key(es, k) && es.last().0 != k {
            let i = choose|i: int| 0 <= i < es.len() && #[trigger] es[i].0 == k;
            assert(i < es.len() - 1);
            assert(init[i].0 == k);
        }
        if es.last().0 == k {
            assert(es[es.len() - 1].0 == k);
        }
    }
}

proof fn lemma_map_of_index(es: Seq<(SocketAddr, SocketAddr)>, i: int)
    requires
        distinct_keys(es),
        0 <= i < es.len(),
    ensures
        map_of(es).dom().contains(es[i].0),
        map_of(es)[es[i].0] == es[i].1,
    decreases es.len(),
{
    let init = es.drop_last();
    if i < es.len() - 1 {
        assert(init[i] == es[i]);
        assert(distinct_keys(init)) by {
            assert forall|a: int, b: int| 0 <= a < b < init.len() implies #[trigger] init[a].0
                != #[trigger] init[b].0 by {
                assert(init[a] == es[a] && init[b] == es[b]);
            }
        }
        lemma_map_of_index(init, i);
        assert(es[i].0 != es[es.len() - 1].0);
    }
}

proof fn lemma_map_of_update(es: Seq<(SocketAddr, SocketAddr)>, i: int, v: SocketAddr)
    requires
        distinct_keys(es),
        0 <= i < es.len(),
    ensures
        map_of(es.update(i, (es[i].0, v))) == map_of(es).insert(es[i].0, v),
    decreases es.len(),
{
    let k = es[i].0;
    let us = es.update(i, (k, v));
    let init = es.drop_last();
    assert(distinct_keys(init)) by {
        assert forall|a: int, b: int| 0 <= a < b < init.len() implies #[trigger] init[a].0
            != #[trigger] init[b].0 by {
            assert(init[a] == es[a] && init[b] == es[b]);
        }
    }
    if i == es.len() - 1 {
        assert(us.drop_last() =~= init);
        assert(map_of(us) =~= map_of(es).insert(k, v));
    } else {
        lemma_map_of_update(init, i, v);
        assert(us.drop_last() =~= init.update(i, (k, v)));
        assert(us.last() == es.last());
        assert(es.last().0 != k) by {
            assert(es[es.len() - 1] == es.last());
        }
        assert(map_of(us) =~= map_of(es).insert(k, v));
    }
}

impl RouteTable {
    #[verifier::type_invariant]
    closed spec fn keys_distinct(self) -> bool {
        distinct_keys(self.entries@)
    }

    /// The empty map.
    pub fn new() -> (r: RouteTable)
        ensures
            r@ == Map::<SocketAddr, SocketAddr>::empty(),
    {
        RouteTable { entries: Vec::new() }
    }

    fn position(&self, k: &SocketAddr) -> (r: Option<usize>)
        ensures
            match r {
                Some(i) => i < self.entries@.len() && self.entries@[i as int].0 == *k,
                None => !has_key(self.entries@, *k),
            },
    {
        let mut i: usize = 0;
        while i < self.entries.len()
            invariant
                i <= self.entries@.len(),
                forall|j: int| 0 <= j < i ==> #[trigger] self.entries@[j].0 != *k,
            decreases self.entries@.len() - i,
        {
            if self.entries[i].0 == *k {
                return Some(i);
            }
            i = i + 1;
        }
        None
    }

    /// Maps `k` to `v`, replacing what `k` mapped to.
    pub fn insert(&mut self, k: SocketAddr, v: SocketAddr)
        ensures
            final(self)@ == old(self)@.insert(k, v),
    {
        proof {
            use_type_invariant(&*self);
        }
        match self.position(&k) {
            Some(i) => {
                proof {
                    lemma_map_of_update(self.entries@, i as int, v);
                }
                let ghost es = self.entries@;
                let mut entries: Vec<(SocketAddr, SocketAddr)> = Vec::new();
                std::mem::swap(&mut entries, &mut self.entries);
                entries.set(i, (k, v));
                proof {
                    assert forall|a: int, b: int| 0 <= a < b < entries@.len() implies #[trigger] entries@[a].0
                        != #[trigger] entries@[b].0 by {
                        assert(entries@[a].0 == es[a].0 && entries@[b].0 == es[b].0);
                    }
                }
                self.entries = entries;
            },
            None => {
                let ghost es = self.entries@;
                let mut entries: Vec<(SocketAddr, SocketAddr)> = Vec::new();
                std::mem::swap(&mut entries, &mut self.entries);
                entries.push((k, v));
                proof {
                    assert(entries@.drop_last() =~= es);
                    assert forall|a: int, b: int| 0 <= a < b < entries@.len() implies #[trigger] entries@[a].0
                        != #[trigger] entries@[b].0 by {
                        if b == es.len() {
                            assert(entries@[a] == es[a]);
                            if es[a].0 == k {
                                assert(has_key(es, k));
                            }
                        } else {
                            assert(entries@[a] == es[a] && entries@[b] == es[b]);
                        }
                    }
                }
                self.entries = entries;
            },
        }
    }

    /// What `k` maps to.
    pub fn get(&self, k: &SocketAddr) -> (r: Option<SocketAddr>)
        ensures
            r == (if self@.dom().contains(*k) {
                Some(self@[*k])
            } else {
                None::<SocketAddr>
            }),
    {
        proof {
            use_type_invariant(self);
            lemma_map_of_dom(self.entries@, *k);
        }
        match self.position(k) {
            Some(i) => {
                proof {
                    lemma_map_of_index(self.entries@, i as int);
                }
                Some(self.entries[i].1)
            },
            None => None,
        }
    }

    /// The number of keys.
    pub fn len(&self) -> (r: usize)
        ensures
            r == self@.dom().len(),
    {
        proof {
            use_type_invariant(self);
            lemma_len(self.entries@);
        }
        self.entries.len()
    }

    /// The keys, each once.
    pub fn keys(&self) -> (r: Vec<SocketAddr>)
        ensures
            r@.no_duplicates(),
            forall|k: SocketAddr| r@.contains(k) <==> self@.dom().contains(k),
    {
        proof {
            use_type_invariant(self);
        }
        let mut r: Vec<SocketAddr> = Vec::new();
        let mut i: usize = 0;
        while i < self.entries.len()
            invariant
                i <= self.entries@.len(),
                distinct_keys(self.entries@),
                r@.len() == i,
                forall|j: int| 0 <= j < i ==> #[trigger] r@[j] == self.entries@[j].0,
            decreases self.entries@.len() - i,
        {
            r.push(self.entries[i].0);
            i = i + 1;
        }
        proof {
            assert forall|a: int, b: int| 0 <= a < r@.len() && 0 <= b < r@.len() && a != b implies r@[a]
                != r@[b] by {
                if a < b {
                    assert(self.entries@[a].0 != self.entries@[b].0);
                } else {
                    assert(self.entries@[b].0 != self.entries@[a].0);
                }
            }
            assert forall|k: SocketAddr| r@.contains(k) <==> self@.dom().contains(k) by {
                lemma_map_of_dom(self.entries@, k);
                if r@.contains(k) {
                    let j = choose|j: int| 0 <= j < r@.len() && r@[j] == k;
                    assert(self.entries@[j].0 == k);
                }
                if has_key(self.entries@, k) {
                    let j = choose|j: int| 0 <= j < self.entries@.len() && #[trigger] self.entries@[j].0
                        == k;
                    assert(r@[j] == k);
                }
            }
        }
        r
    }
}

proof fn lemma_len(es: Seq<(SocketAddr, SocketAddr)>)
    requires
        distinct_keys(es),
    ensures
        map_of(es).dom().len() == es.len(),
    decreases es.len(),
{
    if es.len() > 0 {
        let init = es.drop_last();
        assert(distinct_keys(init)) by {
            assert forall|a: int, b: int| 0 <= a < b < init.len() implies #[trigger] init[a].0
                != #[trigger] init[b].0 by {
                assert(init[a] == es[a] && init[b] == es[b]);
            }
        }
        lemma_len(init);
        lemma_map_of_dom(init, es.last().0);
        if has_key(init, es.last().0) {
            let i = choose|i: int| 0 <= i < init.len() && #[trigger] init[i].0 == es.last().0;
            assert(es[i].0 == es[es.len() - 1].0);
        }
    }
}

} // verus!
