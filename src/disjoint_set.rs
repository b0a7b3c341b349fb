use vstd::prelude::*;

use crate::model::TerminalID;

verus! {

/// The terminals of `s` in the order of their first appearance, each once.
pub open spec fn first_occurrences(s: Seq<TerminalID>) -> Seq<TerminalID>
    decreases s.len(),
{
    if s.len() == 0 {
        Seq::empty()
    } else {
        let p = first_occurrences(s.drop_last());
        if p.contains(s.last()) {
            p
        } else {
            p.push(s.last())
        }
    }
}

/// A disjoint-set forest over terminals.
///
/// `parent[i]` is the index of the parent of `elements[i]`; a root is its own
/// parent. The ghost `root[i]` is the root that the chain from `i` reaches, and
/// `depth` strictly decreases along every parent link, so that the chain ends.
pub struct DisjointSet {
    elements: Vec<TerminalID>,
    parent: Vec<usize>,
    root: Ghost<Seq<int>>,
    depth: Ghost<Seq<nat>>,
}

impl DisjointSet {
    pub closed spec fn wf(&self) -> bool {
        let n = self.elements@.len();
        &&& self.parent@.len() == n
        &&& self.root@.len() == n
        &&& self.depth@.len() == n
        &&& self.elements@.no_duplicates()
        &&& forall|i: int|
            #![trigger self.parent@[i]]
            0 <= i < n ==> {
                &&& 0 <= self.parent@[i] < n
                &&& 0 <= self.root@[i] < n
                &&& self.parent@[self.root@[i]] == self.root@[i]
                &&& (self.parent@[i] == i <==> self.root@[i] == i)
                &&& (self.parent@[i] != i ==> self.depth@[self.parent@[i] as int]
                    < self.depth@[i] && self.root@[self.parent@[i] as int] == self.root@[i])
            }
    }

    /// The terminals held, each once, in the order in which they were first given.
    pub closed spec fn members(&self) -> Seq<TerminalID> {
        self.elements@
    }

    spec fn index(&self, a: TerminalID) -> int {
        self.elements@.index_of(a)
    }

    /// `a` and `b` are held and lie in the same set.
    pub closed spec fn connected(&self, a: TerminalID, b: TerminalID) -> bool {
        &&& self.elements@.contains(a)
        &&& self.elements@.contains(b)
        &&& self.root@[self.index(a)] == self.root@[self.index(b)]
    }

    /// The canonical representative of the set that holds `a`.
    pub closed spec fn rep(&self, a: TerminalID) -> TerminalID {
        self.elements@[self.root@[self.index(a)]]
    }

    proof fn lemma_wf_at(&self, i: int)
        requires
            self.wf(),
            0 <= i < self.elements@.len(),
        ensures
            0 <= self.parent@[i] < self.elements@.len(),
            0 <= self.root@[i] < self.elements@.len(),
            self.parent@[self.root@[i]] == self.root@[i],
            self.parent@[i] == i <==> self.root@[i] == i,
            self.parent@[i] != i ==> self.depth@[self.parent@[i] as int] < self.depth@[i]
                && self.root@[self.parent@[i] as int] == self.root@[i],
    {
        assert(0 <= self.parent@[i] < self.elements@.len());
    }

    proof fn lemma_index(&self, j: int)
        requires
            self.wf(),
            0 <= j < self.elements@.len(),
        ensures
            self.elements@.contains(self.elements@[j]),
            self.index(self.elements@[j]) == j,
    {
        let a = self.elements@[j];
        assert(self.elements@[j] == a);
        let k = self.index(a);
        assert(0 <= k < self.elements@.len() && self.elements@[k] == a);
    }

    /// Two held terminals share a representative exactly when they are connected.
    pub proof fn lemma_rep_canonical(&self, a: TerminalID, b: TerminalID)
        requires
            self.wf(),
            self.members().contains(a),
            self.members().contains(b),
        ensures
            self.connected(a, b) <==> self.rep(a) == self.rep(b),
    {
        let ia = self.index(a);
        let ib = self.index(b);
        assert(self.elements@.contains(a));
        assert(self.elements@.contains(b));
        assert(0 <= ia < self.elements@.len());
        assert(0 <= ib < self.elements@.len());
        self.lemma_wf_at(ia);
        self.lemma_wf_at(ib);
        let ra = self.root@[ia];
        let rb = self.root@[ib];
        assert(0 <= ra < self.elements@.len());
        assert(0 <= rb < self.elements@.len());
        if ra != rb {
            assert(self.elements@.no_duplicates());
            assert(self.elements@[ra] != self.elements@[rb]);
        }
    }

    /// Seeds the forest with every given terminal, each alone in its set.
    pub fn new(terminal_ids: Vec<TerminalID>) -> (r: Self)
        ensures
            r.wf(),
            r.members() == first_occurrences(terminal_ids@),
            r.members().len() <= terminal_ids@.len(),
            forall|t: TerminalID| r.members().contains(t) <==> terminal_ids@.contains(t),
            forall|a: TerminalID, b: TerminalID|
                r.connected(a, b) <==> (r.members().contains(a) && a == b),
    {
        let mut elements: Vec<TerminalID> = Vec::new();
        let mut parent: Vec<usize> = Vec::new();
        let ghost input = terminal_ids@;
        let mut i: usize = 0;
        while i < terminal_ids.len()
            invariant
                i <= terminal_ids.len(),
                input == terminal_ids@,
                elements@ == first_occurrences(input.subrange(0, i as int)),
                elements@.no_duplicates(),
                elements@.len() <= i,
                parent@.len() == elements@.len(),
                forall|k: int| 0 <= k < parent@.len() ==> parent@[k] == k,
                forall|t: TerminalID|
                    elements@.contains(t) <==> input.subrange(0, i as int).contains(t),
            decreases terminal_ids.len() - i,
        {
            let t = terminal_ids[i];
            let mut seen = false;
            let mut j: usize = 0;
            while j < elements.len()
                invariant
                    j <= elements.len(),
                    seen <==> exists|k: int| 0 <= k < j && elements@[k] == t,
                decreases elements.len() - j,
            {
                if elements[j] == t {
                    seen = true;
                }
                j = j + 1;
            }
            let ghost prefix = input.subrange(0, i as int);
            let ghost next = input.subrange(0, i + 1);
            assert(next.drop_last() == prefix);
            assert(next.last() == t);
            assert(seen <==> elements@.contains(t));
            let ghost before = elements@;
            if !seen {
                let k = elements.len();
                elements.push(t);
                parent.push(k);
                assert forall|u: TerminalID| elements@.contains(u) <==> (before.contains(u) || u == t) by {
                    if elements@.contains(u) {
                        let w = choose|w: int| 0 <= w < elements@.len() && elements@[w] == u;
                        if w < before.len() {
                            assert(before[w] == u);
                        }
                    }
                    if before.contains(u) {
                        let w = choose|w: int| 0 <= w < before.len() && before[w] == u;
                        assert(elements@[w] == u);
                    }
                    assert(elements@[before.len() as int] == t);
                }
            }
            assert forall|u: TerminalID| next.contains(u) <==> (prefix.contains(u) || u == t) by {
                if next.contains(u) {
                    let w = choose|w: int| 0 <= w < next.len() && next[w] == u;
                    if w < i {
                        assert(prefix[w] == u);
                    }
                }
                if prefix.contains(u) {
                    let w = choose|w: int| 0 <= w < prefix.len() && prefix[w] == u;
                    assert(next[w] == u);
                }
                assert(next[i as int] == t);
            }
            assert forall|u: TerminalID| elements@.contains(u) <==> next.contains(u) by {
                if !seen {
                    assert(elements@.contains(u) <==> (before.contains(u) || u == t));
                }
            }
            i = i + 1;
        }
        assert(input.subrange(0, input.len() as int) == input);
        let ghost n = elements@.len();
        let r = DisjointSet {
            elements,
            parent,
            root: Ghost(Seq::new(n, |k: int| k)),
            depth: Ghost(Seq::new(n, |k: int| 0nat)),
        };
        assert forall|a: TerminalID, b: TerminalID|
            r.connected(a, b) <==> (r.members().contains(a) && a == b) by {
            if r.members().contains(a) && r.members().contains(b) {
                let ia = r.index(a);
                let ib = r.index(b);
                assert(0 <= ia < n && r.elements@[ia] == a);
                assert(0 <= ib < n && r.elements@[ib] == b);
            }
        }
        r
    }

    fn position(&self, terminal_id: &TerminalID) -> (r: usize)
        requires
            self.wf(),
            self.members().contains(*terminal_id),
        ensures
            r < self.elements@.len(),
            self.elements@[r as int] == *terminal_id,
            self.index(*terminal_id) == r,
    {
        let mut j: usize = 0;
        while j < self.elements.len()
            invariant
                self.wf(),
                j <= self.elements@.len(),
                forall|k: int| 0 <= k < j ==> self.elements@[k] != *terminal_id,
            decreases self.elements.len() - j,
        {
            if self.elements[j] == *terminal_id {
                proof {
                    self.lemma_index(j as int);
                }
                return j;
            }
            j = j + 1;
        }
        assert(false);
        0
    }

    fn find_index(&self, i: usize) -> (r: usize)
        requires
            self.wf(),
            i < self.elements@.len(),
        ensures
            r == self.root@[i as int],
            r < self.elements@.len(),
            self.parent@[r as int] == r,
    {
        let mut id = i;
        while self.parent[id] != id
            invariant
                self.wf(),
                id < self.elements@.len(),
                self.root@[id as int] == self.root@[i as int],
            decreases self.depth@[id as int],
        {
            proof { self.lemma_wf_at(id as int); }
            id = self.parent[id];
        }
        proof { self.lemma_wf_at(id as int); }
        id
    }

    /// The canonical representative of the set that holds `terminal_id`.
    pub fn find(&self, terminal_id: &TerminalID) -> (r: TerminalID)
        requires
            self.wf(),
            self.members().contains(*terminal_id),
        ensures
            r == self.rep(*terminal_id),
            self.members().contains(r),
            self.connected(*terminal_id, r),
    {
        let i = self.position(terminal_id);
        let k = self.find_index(i);
        proof { self.lemma_wf_at(i as int); }
        proof {
            self.lemma_index(k as int);
            self.lemma_wf_at(k as int);
        }
        self.elements[k]
    }

    /// Joins the sets that hold `left` and `right`.
    pub fn merge(&mut self, left: TerminalID, right: TerminalID)
        requires
            old(self).wf(),
            old(self).members().contains(left),
            old(self).members().contains(right),
        ensures
            final(self).wf(),
            final(self).members() == old(self).members(),
            forall|a: TerminalID, b: TerminalID|
                final(self).connected(a, b) <==> {
                    ||| old(self).connected(a, b)
                    ||| old(self).connected(a, left) && old(self).connected(right, b)
                    ||| old(self).connected(a, right) && old(self).connected(left, b)
                },
    {
        let il = self.position(&left);
        let ir = self.position(&right);
        let ra = self.find_index(il);
        let rb = self.find_index(ir);
        proof { self.lemma_wf_at(il as int); }
        proof { self.lemma_wf_at(ir as int); }
        if ra != rb {
            let ghost pre = *self;
            let ghost n = self.elements@.len();
            let ghost root = self.root@;
            let ghost depth = self.depth@;
            let ghost ra_i = ra as int;
            let ghost rb_i = rb as int;
            self.parent.set(ra, rb);
            self.root = Ghost(Seq::new(n, |k: int| if root[k] == ra_i { rb_i } else { root[k] }));
            self.depth = Ghost(
                Seq::new(
                    n,
                    |k: int|
                        if root[k] == ra_i {
                            depth[k] + depth[rb_i] + 1
                        } else {
                            depth[k]
                        },
                ),
            );
            proof { pre.lemma_wf_at(ra_i); }
            proof { pre.lemma_wf_at(rb_i); }
            assert forall|i: int|
                #![trigger self.parent@[i]]
                0 <= i < n implies {
                &&& 0 <= self.parent@[i] < n
                &&& 0 <= self.root@[i] < n
                &&& self.parent@[self.root@[i]] == self.root@[i]
                &&& (self.parent@[i] == i <==> self.root@[i] == i)
                &&& (self.parent@[i] != i ==> self.depth@[self.parent@[i] as int]
                    < self.depth@[i] && self.root@[self.parent@[i] as int] == self.root@[i])
            } by {
                pre.lemma_wf_at(i);
                let p = pre.parent@[i] as int;
                pre.lemma_wf_at(p);
                let q = root[i];
                pre.lemma_wf_at(q);
            }
            assert forall|a: TerminalID, b: TerminalID|
                self.connected(a, b) <==> {
                    ||| pre.connected(a, b)
                    ||| pre.connected(a, left) && pre.connected(right, b)
                    ||| pre.connected(a, right) && pre.connected(left, b)
                } by {
                if pre.elements@.contains(a) {
                    let ia = pre.index(a);
                    pre.lemma_wf_at(ia);
                }
                if pre.elements@.contains(b) {
                    let ib = pre.index(b);
                    pre.lemma_wf_at(ib);
                }
            }
        }
    }

    /// Splits the held terminals into their sets, consuming the forest.
    ///
    /// Every held terminal lies in exactly one of the returned groups, two
    /// terminals share a group exactly when they are connected, and the first
    /// group starts with the first member.
    pub fn into_terminal_groups(self) -> (r: Vec<Vec<TerminalID>>)
        requires
            self.wf(),
        ensures
            r@.len() <= self.members().len(),
            forall|g: int| 0 <= g < r@.len() ==> r@[g]@.len() > 0,
            forall|g: int, k: int|
                0 <= g < r@.len() && 0 <= k < r@[g]@.len() ==> self.members().contains(r@[g]@[k]),
            forall|t: TerminalID|
                self.members().contains(t) ==> exists|g: int, k: int|
                    0 <= g < r@.len() && 0 <= k < r@[g]@.len() && r@[g]@[k] == t,
            forall|g1: int, k1: int, g2: int, k2: int|
                0 <= g1 < r@.len() && 0 <= k1 < r@[g1]@.len() && 0 <= g2 < r@.len() && 0 <= k2
                    < r@[g2]@.len() ==> (self.connected(r@[g1]@[k1], r@[g2]@[k2]) <==> g1 == g2),
            forall|g: int| 0 <= g < r@.len() ==> (#[trigger] r@[g])@.no_duplicates(),
            self.members().len() > 0 ==> r@.len() > 0 && r@[0]@[0] == self.members()[0],
    {
        let n = self.elements.len();
        let mut roots: Vec<usize> = Vec::new();
        let mut i: usize = 0;
        while i < n
            invariant
                self.wf(),
                n == self.elements@.len(),
                i <= n,
                roots@.len() == i,
                forall|k: int| 0 <= k < i ==> roots@[k] == self.root@[k],
            decreases n - i,
        {
            let k = self.find_index(i);
            roots.push(k);
            i = i + 1;
        }
        let mut groups: Vec<Vec<TerminalID>> = Vec::new();
        let ghost mut lead: Seq<int> = Seq::empty();
        let mut i: usize = 0;
        while i < n
            invariant
                self.wf(),
                n == self.elements@.len(),
                i <= n,
                roots@.len() == n,
                forall|k: int| 0 <= k < n ==> roots@[k] == self.root@[k],
                groups@.len() == lead.len(),
                lead.len() <= i,
                forall|g: int| 0 <= g < lead.len() ==> 0 <= #[trigger] lead[g] < i,
                forall|g: int|
                    #![trigger groups@[g]]
                    0 <= g < lead.len() ==> groups@[g]@.len() > 0 && groups@[g]@[0]
                        == self.elements@[lead[g]],
                forall|g: int, k: int|
                    0 <= g < lead.len() && 0 <= k < groups@[g]@.len() ==> {
                        &&& self.elements@.contains(groups@[g]@[k])
                        &&& self.root@[self.index(groups@[g]@[k])] == self.root@[lead[g]]
                    },
                forall|g1: int, g2: int|
                    0 <= g1 < lead.len() && 0 <= g2 < lead.len() && g1 != g2 ==> self.root@[lead[g1]]
                        != self.root@[lead[g2]],
                forall|j: int|
                    #![trigger self.root@[j]]
                    0 <= j < i ==> exists|g: int|
                        0 <= g < lead.len() && #[trigger] self.root@[lead[g]] == self.root@[j],
                forall|g: int, j: int|
                    #![trigger self.root@[j], lead[g]]
                    0 <= g < lead.len() && 0 <= j < lead[g] ==> self.root@[j] != self.root@[lead[g]],
                forall|g: int, j: int|
                    #![trigger groups@[g]@.contains(self.elements@[j])]
                    0 <= g < lead.len() && lead[g] <= j < n && self.root@[j] == self.root@[lead[g]]
                        ==> groups@[g]@.contains(self.elements@[j]),
                n > 0 && i > 0 ==> lead.len() > 0 && lead[0] == 0,
                forall|g: int| 0 <= g < lead.len() ==> (#[trigger] groups@[g])@.no_duplicates(),
            decreases n - i,
        {
            let r = roots[i];
            let mut first = true;
            let mut j: usize = 0;
            while j < i
                invariant
                    i < n,
                    j <= i,
                    roots@.len() == n,
                    first <==> forall|k: int| 0 <= k < j ==> roots@[k] != r,
                decreases i - j,
            {
                if roots[j] == r {
                    first = false;
                }
                j = j + 1;
            }
            let ghost prev_lead = lead;
            if first {
                let mut group: Vec<TerminalID> = Vec::new();
                let mut j: usize = i;
                while j < n
                    invariant
                        self.wf(),
                        n == self.elements@.len(),
                        i < n,
                        i <= j <= n,
                        roots@.len() == n,
                        forall|k: int| 0 <= k < n ==> roots@[k] == self.root@[k],
                        r == self.root@[i as int],
                        j == i ==> group@.len() == 0,
                        j > i ==> group@.len() > 0 && group@[0] == self.elements@[i as int],
                        forall|k: int|
                            0 <= k < group@.len() ==> {
                                &&& self.elements@.contains(group@[k])
                                &&& self.root@[self.index(group@[k])] == r
                            },
                        forall|k: int|
                            i <= k < j && self.root@[k] == r ==> group@.contains(self.elements@[k]),
                        group@.no_duplicates(),
                        forall|k: int| 0 <= k < group@.len() ==> self.index(#[trigger] group@[k]) < j,
                    decreases n - j,
                {
                    if roots[j] == r {
                        proof {
                            self.lemma_index(j as int);
                        }
                        let ghost before = group@;
                        group.push(self.elements[j]);
                        assert(group@[0] == if j == i { self.elements@[i as int] } else { before[0] });
                        assert forall|k: int| 0 <= k < before.len() implies before[k] != self.elements@[j as int] by {
                            assert(self.index(before[k]) < j);
                        }
                        assert(group@ == before.push(self.elements@[j as int]));
                        assert forall|k: int|
                            i <= k < j + 1 && self.root@[k] == r implies group@.contains(
                                self.elements@[k],
                            ) by {
                            if k < j {
                                let w = choose|w: int|
                                    0 <= w < before.len() && before[w] == self.elements@[k];
                                assert(group@[w] == self.elements@[k]);
                            } else {
                                assert(group@[before.len() as int] == self.elements@[k]);
                            }
                        }
                    }
                    j = j + 1;
                }
                let ghost old_groups = groups@;
                groups.push(group);
                proof {
                    lead = lead.push(i as int);
                    assert(groups@[lead.len() - 1] == group);
                    assert forall|g: int| 0 <= g < old_groups.len() implies groups@[g] == old_groups[g] by {}
                    assert forall|g: int| 0 <= g < lead.len() implies (#[trigger] groups@[g])@.no_duplicates() by {
                        if g < old_groups.len() {
                            assert(groups@[g] == old_groups[g]);
                        }
                    }
                    assert forall|g: int| 0 <= g < lead.len() implies groups@[g]@.len() > 0
                        && groups@[g]@[0] == self.elements@[lead[g]] by {
                        if g < old_groups.len() {
                            assert(groups@[g] == old_groups[g]);
                            assert(lead[g] == prev_lead[g]);
                        }
                    }
                }
            }
            proof {
                let ghost old_lead = prev_lead;
                assert forall|j: int|
                    #![trigger self.root@[j]]
                    0 <= j < i + 1 implies exists|g: int|
                        0 <= g < lead.len() && #[trigger] self.root@[lead[g]] == self.root@[j] by {
                    if j == i {
                        if first {
                            assert(self.root@[lead[lead.len() - 1]] == self.root@[j]);
                        } else {
                            let k = choose|k: int| 0 <= k < i && roots@[k] == r;
                            assert(self.root@[k] == self.root@[j]);
                            let g = choose|g: int|
                                0 <= g < old_lead.len() && #[trigger] self.root@[old_lead[g]]
                                    == self.root@[k];
                            assert(lead[g] == old_lead[g]);
                        }
                    } else {
                        let g = choose|g: int|
                            0 <= g < old_lead.len() && #[trigger] self.root@[old_lead[g]]
                                == self.root@[j];
                        assert(lead[g] == old_lead[g]);
                    }
                }
            }
            i = i + 1;
        }
        proof {
            assert forall|t: TerminalID| self.members().contains(t) implies exists|g: int, k: int|
                0 <= g < groups@.len() && 0 <= k < groups@[g]@.len() && groups@[g]@[k] == t by {
                let j = choose|j: int| 0 <= j < n && self.elements@[j] == t;
                let g = choose|g: int| 0 <= g < lead.len() && #[trigger] self.root@[lead[g]] == self.root@[j];
                if j < lead[g] {
                    assert(self.root@[j] != self.root@[lead[g]]);
                }
                assert(groups@[g]@.contains(self.elements@[j]));
                let k = choose|k: int| 0 <= k < groups@[g]@.len() && groups@[g]@[k] == t;
            }
        }
        groups
    }
}

} // verus!
