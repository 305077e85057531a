//! Tree encoding of a prime factorization, and its text rendering.
//!
//! A tree is built in an append-only arena of nodes; each node has up to
//! three edges, every edge pointing at a strictly later arena position:
//! `set` encodes an exponent, `offset` the gap to the next prime index,
//! and `link` the chain to the next factor.  The encoding is one way: the
//! crate offers no operation that reads a number back out of a tree.

use vstd::prelude::*;
use vstd::string::StringExecFns;
use crate::primes::{
    Primes, factors_covered, factors_wf, is_prime, lemma_index_lower, lemma_prime_below_64,
    spec_factorize,
};
use vstd::arithmetic::div_mod::lemma_fundamental_div_mod;

verus! {

/// Position of a node in the tree's append-only arena.
#[derive(Clone, Copy)]
pub struct NodeId(pub usize);

/// A tree node: three optional out-edges into the arena.
#[derive(Clone, Copy)]
pub struct Node {
    /// Encodes the exponent of this factor.
    pub set: Option<NodeId>,
    /// Chains to the next factor at the same level.
    pub link: Option<NodeId>,
    /// Encodes the gap to the next prime index.
    pub offset: Option<NodeId>,
}

/// A node with no edges.
pub open spec fn spec_leaf() -> Node {
    Node { set: None, link: None, offset: None }
}

/// A node is a leaf when it has no set, link, or offset edge.
pub open spec fn spec_is_leaf(n: Node) -> bool {
    n.set is None && n.link is None && n.offset is None
}

impl Node {
    /// Whether the node has no set, link, or offset edge.
    pub fn is_leaf(&self) -> (r: bool)
        ensures
            r == spec_is_leaf(*self),
    {
        self.link.is_none() && self.set.is_none() && self.offset.is_none()
    }
}

/// Every edge points at a strictly later position of the arena, so the
/// node graph is a tree and walking edges terminates.
pub open spec fn arena_wf(nodes: Seq<Node>) -> bool {
    forall|i: int| 0 <= i < nodes.len() ==> {
        let n = #[trigger] nodes[i];
        &&& match n.set {
            Some(nid) => i < nid.0 < nodes.len(),
            None => true,
        }
        &&& match n.link {
            Some(nid) => i < nid.0 < nodes.len(),
            None => true,
        }
        &&& match n.offset {
            Some(nid) => i < nid.0 < nodes.len(),
            None => true,
        }
    }
}

/// The arena after building the tree for `num`, and the position of its
/// root: mirrors the recursive build.  `fuel` only bounds the recursion
/// depth; any value at least `num` is enough.
pub open spec fn spec_fill(
    primes: Seq<usize>,
    nodes: Seq<Node>,
    num: nat,
    is_parent_set: bool,
    trim: bool,
    fuel: nat,
) -> (Seq<Node>, usize)
    decreases fuel, 0int, 0int,
{
    let node_id = nodes.len() as usize;
    let nodes1 = nodes.push(spec_leaf());
    if fuel == 0 {
        (nodes1, node_id)
    } else {
        let factors = spec_factorize(primes, num);
        (
            spec_fill_factors(
                primes,
                nodes1,
                factors,
                0,
                0,
                node_id as nat,
                is_parent_set,
                trim,
                (fuel - 1) as nat,
            ),
            node_id,
        )
    }
}

/// Processes the factors from position `idx` on, threading the arena, the
/// running offset accumulator, and the position of the node to write.
pub open spec fn spec_fill_factors(
    primes: Seq<usize>,
    nodes: Seq<Node>,
    factors: Seq<(usize, usize)>,
    idx: int,
    num_offsets: nat,
    id: nat,
    is_parent_set: bool,
    trim: bool,
    fuel: nat,
) -> Seq<Node>
    decreases fuel, 1int, factors.len() - idx,
{
    if idx < 0 || idx >= factors.len() {
        nodes
    } else {
        let prime_index = factors[idx].0;
        let exponent = factors[idx].1;
        let last = idx == factors.len() - 1;
        let set_r = if exponent > 1 {
            let r = spec_fill(primes, nodes, exponent as nat, true, trim, fuel);
            (r.0, Some(NodeId(r.1)))
        } else if trim && (is_parent_set || prime_index as nat > num_offsets || !last) {
            (nodes, None)
        } else {
            (nodes.push(spec_leaf()), Some(NodeId(nodes.len() as usize)))
        };
        let off_r = if prime_index as nat > num_offsets {
            let r = spec_fill(
                primes,
                set_r.0,
                (prime_index - num_offsets) as nat,
                false,
                trim,
                fuel,
            );
            (r.0, Some(NodeId(r.1)), (num_offsets + prime_index) as nat)
        } else {
            (set_r.0, None::<NodeId>, num_offsets)
        };
        let link_r = if !last {
            (
                off_r.0.push(spec_leaf()),
                Some(NodeId(off_r.0.len() as usize)),
                off_r.0.len() as nat,
                (off_r.2 + 1) as nat,
            )
        } else {
            (off_r.0, None::<NodeId>, id, off_r.2)
        };
        let written = link_r.0.update(
            id as int,
            Node { set: set_r.1, offset: off_r.1, link: link_r.1 },
        );
        spec_fill_factors(
            primes,
            written,
            factors,
            idx + 1,
            link_r.3,
            link_r.2,
            is_parent_set,
            trim,
            fuel,
        )
    }
}

/// Two spaces per indent level.
pub open spec fn spec_indent(n: nat) -> Seq<char>
    decreases n,
{
    if n == 0 {
        Seq::<char>::empty()
    } else {
        spec_indent((n - 1) as nat) + "  "@
    }
}

/// The text of a node: a leaf renders as `*`; any other node renders as
/// three indented lines marked `s`, `l` and `o`, each followed by its
/// subtree's text, a missing edge by empty text.  Out-of-range positions
/// render as nothing.
pub open spec fn spec_render(nodes: Seq<Node>, node: int, indent: nat) -> Option<Seq<char>>
    decreases nodes.len() - node, 0int when arena_wf(nodes)
{
    if node < 0 || node >= nodes.len() {
        None
    } else {
        let cur = nodes[node];
        if spec_is_leaf(cur) {
            Some("*"@)
        } else {
            let st = match cur.set {
                Some(nid) => match spec_render(nodes, nid.0 as int, (indent + 1) as nat) {
                    Some(t) => t,
                    None => Seq::<char>::empty(),
                },
                None => Seq::<char>::empty(),
            };
            let lt = match cur.link {
                Some(nid) => match spec_render(nodes, nid.0 as int, (indent + 1) as nat) {
                    Some(t) => t,
                    None => Seq::<char>::empty(),
                },
                None => Seq::<char>::empty(),
            };
            let ot = match cur.offset {
                Some(nid) => match spec_render(nodes, nid.0 as int, (indent + 1) as nat) {
                    Some(t) => t,
                    None => Seq::<char>::empty(),
                },
                None => Seq::<char>::empty(),
            };
            Some(
                "\n"@ + spec_indent(indent) + "s"@ + st + "\n"@ + spec_indent(indent) + "l"@ + lt
                    + "\n"@ + spec_indent(indent) + "o"@ + ot,
            )
        }
    }
}

/// The whole tree's text: the root's rendering, or, when no tree was
/// built, the policy's placeholder — a message with trimming on, empty
/// text with trimming off.
pub open spec fn spec_tree_text(nodes: Seq<Node>, trim: bool) -> Seq<char> {
    match spec_render(nodes, 0, 0) {
        Some(t) => t,
        None => if trim {
            "0 and 1 are unrepresentable in trimmed notation"@
        } else {
            ""@
        },
    }
}

/// In a factor list with strictly ascending positions, the entry at
/// position `k` has index at least `k`.
proof fn lemma_factor_index_ge(f: Seq<(usize, usize)>, k: int)
    requires
        forall|a: int, b: int| 0 <= a < b < f.len() ==> f[a].0 < f[b].0,
        0 <= k < f.len(),
    ensures
        f[k].0 >= k,
    decreases k,
{
    if k > 0 {
        lemma_factor_index_ge(f, k - 1);
        assert(f[k - 1].0 < f[k].0);
    }
}

/// A factorization tree bound to a prime table and a trimming policy.
pub struct PrimeTree<'a> {
    primes: &'a Primes,
    nodes: Vec<Node>,
    trimming_enabled: bool,
}

impl<'a> PrimeTree<'a> {
    /// The arena of nodes built so far.
    pub closed spec fn arena(&self) -> Seq<Node> {
        self.nodes@
    }

    /// The prime list of the bound table.
    pub closed spec fn table(&self) -> Seq<usize> {
        self.primes@
    }

    /// Whether trimming is enabled.
    pub closed spec fn trimming(&self) -> bool {
        self.trimming_enabled
    }

    /// The bound table is well formed.
    pub closed spec fn table_wf(&self) -> bool {
        self.primes.wf()
    }

    /// The largest prime of the bound table.
    pub closed spec fn last_prime(&self) -> int {
        self.primes.last_prime()
    }

    /// An empty tree bound to `primes`, with the given trimming policy.
    pub fn new(primes: &'a Primes, trimming_enabled: bool) -> (r: Self)
        ensures
            r.arena() == Seq::<Node>::empty(),
            r.table() == primes@,
            r.trimming() == trimming_enabled,
            primes.wf() ==> r.table_wf() && r.last_prime() == primes.last_prime(),
    {
        let r = PrimeTree { primes, nodes: Vec::new(), trimming_enabled };
        proof {
            assert(r.arena() =~= Seq::<Node>::empty());
        }
        r
    }

    /// Appends a fresh leaf node and yields its position.
    fn new_node(&mut self) -> (r: NodeId)
        ensures
            final(self).arena() == old(self).arena().push(spec_leaf()),
            r.0 == old(self).arena().len(),
            final(self).table() == old(self).table(),
            final(self).trimming() == old(self).trimming(),
            final(self).table_wf() == old(self).table_wf(),
            final(self).last_prime() == old(self).last_prime(),
    {
        let next_index = self.nodes.len();
        self.nodes.push(Node { set: None, link: None, offset: None });
        NodeId(next_index)
    }

    /// Builds the tree for `num`: with trimming enabled numbers up to 1
    /// are unrepresentable and no tree is built; with trimming disabled
    /// only 0 is.  The resulting arena is a function of the table, the
    /// number and the policy alone, so the encoding is deterministic.
    ///
    /// The number must factor within the table: either it is at most the
    /// largest held prime, or every one of its prime factors is, with the
    /// table reaching 61 — then the recursive encoding steps stay within
    /// the table too, since exponents are below 64 (so their prime
    /// factors are at most 61) and index gaps sit below the largest prime.
    pub fn fill_with_num(&mut self, num: usize)
        requires
            old(self).table_wf(),
            num as int <= old(self).last_prime() || (factors_covered(
                old(self).table(),
                num as int,
            ) && old(self).last_prime() >= 61),
            num <= usize::MAX / 4,
        ensures
            final(self).table() == old(self).table(),
            final(self).trimming() == old(self).trimming(),
            final(self).table_wf() == old(self).table_wf(),
            num > (if old(self).trimming() { 1int } else { 0int }) ==> final(self).arena()
                == spec_fill(
                old(self).table(),
                old(self).arena(),
                num as nat,
                true,
                old(self).trimming(),
                num as nat,
            ).0,
            num <= (if old(self).trimming() { 1int } else { 0int }) ==> final(self).arena()
                == old(self).arena(),
            arena_wf(old(self).arena()) ==> arena_wf(final(self).arena()),
    {
        let threshold: usize = if self.trimming_enabled { 1 } else { 0 };
        if num > threshold {
            self.inner_fill_with_num(num, true);
        }
    }

    /// Builds the subtree for `num` and yields its root's position: one
    /// node per factor, chained by link edges, with exponents and index
    /// gaps encoded as recursive subtrees.
    #[verifier::rlimit(60)]
    fn inner_fill_with_num(&mut self, num: usize, is_parent_set: bool) -> (r: NodeId)
        requires
            old(self).table_wf(),
            1 <= num,
            num as int <= old(self).last_prime() || (factors_covered(
                old(self).table(),
                num as int,
            ) && old(self).last_prime() >= 61),
            num <= usize::MAX / 4,
        ensures
            final(self).table() == old(self).table(),
            final(self).trimming() == old(self).trimming(),
            final(self).table_wf() == old(self).table_wf(),
            final(self).last_prime() == old(self).last_prime(),
            r.0 == old(self).arena().len(),
            final(self).arena().len() > old(self).arena().len(),
            forall|k: int| 0 <= k < old(self).arena().len() ==> final(self).arena()[k] == old(
                self,
            ).arena()[k],
            arena_wf(old(self).arena()) ==> arena_wf(final(self).arena()),
            forall|fuel: nat| fuel >= num ==> (final(self).arena(), r.0) == spec_fill(
                old(self).table(),
                old(self).arena(),
                num as nat,
                is_parent_set,
                old(self).trimming(),
                fuel,
            ),
        decreases num,
    {
        let ghost arena0 = self.arena();
        let ghost table = self.table();
        let ghost trim = self.trimming();
        let node_id = self.new_node();
        let table_ref: &Primes = self.primes;
        let factors = match table_ref.factorize(num) {
            Ok(f) => f,
            Err(_) => {
                proof {
                    assert(false);
                }
                vstd::pervasive::unreached()
            },
        };
        proof {
            if num == 1 {
                assert((table[0] as nat) * (table[0] as nat) > 1) by (nonlinear_arith)
                    requires table[0] >= 2;
                assert(factors@.len() == 0);
            }
        }
        let len = factors.len();
        let mut id: usize = node_id.0;
        let mut next_id: usize = id;
        let mut num_offsets: usize = 0;
        let mut i: usize = 0;
        while i < len
            invariant
                self.table() == table,
                self.trimming() == trim,
                self.table_wf(),
                self.last_prime() == old(self).last_prime(),
                old(self).table_wf(),
                1 <= num <= usize::MAX / 4,
                num as int <= old(self).last_prime() || (factors_covered(
                    table,
                    num as int,
                ) && old(self).last_prime() >= 61),
                table == old(self).table(),
                trim == old(self).trimming(),
                arena0 == old(self).arena(),
                node_id.0 == arena0.len(),
                len == factors@.len(),
                i <= len,
                factors@ == spec_factorize(table, num as nat),
                factors_wf(factors@, table),
                forall|k: int| 0 <= k < factors@.len() ==> (#[trigger] factors@[k]).1 < num
                    && table[factors@[k].0 as int] <= num && factors@[k].1 < 64,
                num >= 2 || len == 0,
                arena0.len() <= id,
                id < self.arena().len(),
                id == next_id,
                self.arena().len() > arena0.len(),
                forall|k: int| 0 <= k < arena0.len() ==> self.arena()[k] == arena0[k],
                arena_wf(arena0) ==> arena_wf(self.arena()),
                num_offsets <= 2 * num + i,
                forall|fuel: nat| fuel >= num ==> spec_fill(
                    table,
                    arena0,
                    num as nat,
                    is_parent_set,
                    trim,
                    fuel,
                ) == (
                    spec_fill_factors(
                        table,
                        self.arena(),
                        factors@,
                        i as int,
                        num_offsets as nat,
                        id as nat,
                        is_parent_set,
                        trim,
                        (fuel - 1) as nat,
                    ),
                    node_id.0,
                ),
            decreases len - i,
        {
            let ghost arena_top = self.arena();
            let ghost offs_top = num_offsets;
            let ghost id_top = id;
            let (prime_index, exponent) = (factors[i].0, factors[i].1);
            proof {
                assert(factors@[i as int].1 < num && table[factors@[i as int].0 as int] <= num);
                assert(factors@[i as int].1 < 64);
                assert(is_prime(table[factors@[i as int].0 as int] as int));
                lemma_index_lower(table, prime_index as int);
                // the gap recursion stays below the largest prime
                assert(table[prime_index as int] as int <= old(self).last_prime()) by {
                    if (prime_index as int) < table.len() - 1 {
                        assert(table[prime_index as int] < table[table.len() - 1]);
                    }
                }
                // the exponent recursion factors within the table: an
                // exponent is below 64, so its prime factors are at most 61
                if exponent as int > old(self).last_prime() {
                    assert(!(num as int <= old(self).last_prime()));
                    assert forall|q: int| is_prime(q) && #[trigger] ((exponent as int) % q)
                        == 0 implies q <= table.last() as int by {
                        lemma_fundamental_div_mod(exponent as int, q);
                        assert(q <= exponent as int) by (nonlinear_arith)
                            requires
                                exponent as int == q * ((exponent as int) / q),
                                q >= 2,
                                exponent >= 1,
                        ;
                        lemma_prime_below_64(q);
                    }
                    assert(factors_covered(table, exponent as int));
                }
            }
            let is_last = i == len - 1;
            let set_edge: Option<NodeId> = if exponent > 1 {
                Some(self.inner_fill_with_num(exponent, true))
            } else if (is_parent_set || prime_index > num_offsets || !is_last)
                && self.trimming_enabled {
                None
            } else {
                Some(self.new_node())
            };
            let ghost arena_s = self.arena();
            let offset_edge: Option<NodeId> = if prime_index > num_offsets {
                let gap = prime_index - num_offsets;
                let ret = self.inner_fill_with_num(gap, false);
                num_offsets = num_offsets + prime_index;
                Some(ret)
            } else {
                None
            };
            let ghost arena_o = self.arena();
            let link_edge: Option<NodeId> = if !is_last {
                proof {
                    lemma_factor_index_ge(factors@, len - 1);
                    assert(table[factors@[len - 1].0 as int] <= num);
                    lemma_index_lower(table, factors@[len - 1].0 as int);
                }
                num_offsets = num_offsets + 1;
                let nn = self.new_node();
                next_id = nn.0;
                Some(nn)
            } else {
                None
            };
            let node = Node { set: set_edge, offset: offset_edge, link: link_edge };
            self.nodes.set(id, node);
            proof {
                let fs = factors@;
                let ii = i as int;
                let last_m = ii == fs.len() - 1;
                // the step keeps the mirror aligned with the arena
                assert forall|fuel: nat| fuel >= num implies spec_fill(
                    table,
                    arena0,
                    num as nat,
                    is_parent_set,
                    trim,
                    fuel,
                ) == (
                    spec_fill_factors(
                        table,
                        self.arena(),
                        fs,
                        ii + 1,
                        num_offsets as nat,
                        next_id as nat,
                        is_parent_set,
                        trim,
                        (fuel - 1) as nat,
                    ),
                    node_id.0,
                ) by {
                    let f1 = (fuel - 1) as nat;
                    let set_m = if fs[ii].1 > 1 {
                        let rr = spec_fill(table, arena_top, fs[ii].1 as nat, true, trim, f1);
                        (rr.0, Some(NodeId(rr.1)))
                    } else if trim && (is_parent_set || fs[ii].0 as nat > offs_top as nat
                        || !last_m) {
                        (arena_top, None)
                    } else {
                        (arena_top.push(spec_leaf()), Some(NodeId(arena_top.len() as usize)))
                    };
                    assert(arena_s == set_m.0 && set_edge == set_m.1);
                    let off_m = if fs[ii].0 as nat > offs_top as nat {
                        let rr = spec_fill(
                            table,
                            set_m.0,
                            (fs[ii].0 - offs_top) as nat,
                            false,
                            trim,
                            f1,
                        );
                        (rr.0, Some(NodeId(rr.1)), (offs_top + fs[ii].0) as nat)
                    } else {
                        (set_m.0, None::<NodeId>, offs_top as nat)
                    };
                    assert(arena_o == off_m.0 && offset_edge == off_m.1);
                    let link_m = if !last_m {
                        (
                            off_m.0.push(spec_leaf()),
                            Some(NodeId(off_m.0.len() as usize)),
                            off_m.0.len() as nat,
                            (off_m.2 + 1) as nat,
                        )
                    } else {
                        (off_m.0, None::<NodeId>, id_top as nat, off_m.2)
                    };
                    assert(link_edge == link_m.1);
                    assert(num_offsets as nat == link_m.3);
                    assert(next_id as nat == link_m.2);
                    assert(self.arena() =~= link_m.0.update(
                        id_top as int,
                        Node { set: set_m.1, offset: off_m.1, link: link_m.1 },
                    ));
                    assert(spec_fill_factors(
                        table,
                        arena_top,
                        fs,
                        ii,
                        offs_top as nat,
                        id_top as nat,
                        is_parent_set,
                        trim,
                        f1,
                    ) == spec_fill_factors(
                        table,
                        self.arena(),
                        fs,
                        ii + 1,
                        num_offsets as nat,
                        next_id as nat,
                        is_parent_set,
                        trim,
                        f1,
                    ));
                }
                // forward edges keep the arena well formed
                if arena_wf(arena0) {
                    assert(arena_wf(arena_top));
                    assert(arena_wf(arena_s)) by {
                        if !(exponent > 1) && set_edge is Some {
                            assert(arena_s == arena_top.push(spec_leaf()));
                        }
                    }
                    assert(arena_wf(arena_o));
                    let arena_l = if link_edge is Some {
                        arena_o.push(spec_leaf())
                    } else {
                        arena_o
                    };
                    assert(arena_wf(arena_l));
                    assert(self.arena() == arena_l.update(id_top as int, node));
                    // the written node's edges lie beyond its own position
                    assert(match node.set {
                        Some(nid) => id_top < nid.0 < self.arena().len(),
                        None => true,
                    });
                    assert(match node.offset {
                        Some(nid) => id_top < nid.0 < self.arena().len(),
                        None => true,
                    });
                    assert(match node.link {
                        Some(nid) => id_top < nid.0 < self.arena().len(),
                        None => true,
                    });
                    assert forall|jj: int| 0 <= jj < self.arena().len() implies {
                        let n = #[trigger] self.arena()[jj];
                        &&& match n.set {
                            Some(nid) => jj < nid.0 < self.arena().len(),
                            None => true,
                        }
                        &&& match n.link {
                            Some(nid) => jj < nid.0 < self.arena().len(),
                            None => true,
                        }
                        &&& match n.offset {
                            Some(nid) => jj < nid.0 < self.arena().len(),
                            None => true,
                        }
                    } by {
                        if jj != id_top {
                            assert(self.arena()[jj] == arena_l[jj]);
                        }
                    }
                }
            }
            id = next_id;
            i = i + 1;
        }
        proof {
            assert forall|fuel: nat| fuel >= num implies (self.arena(), node_id.0) == spec_fill(
                table,
                arena0,
                num as nat,
                is_parent_set,
                trim,
                fuel,
            ) by {
                assert(spec_fill_factors(
                    table,
                    self.arena(),
                    factors@,
                    len as int,
                    num_offsets as nat,
                    id as nat,
                    is_parent_set,
                    trim,
                    (fuel - 1) as nat,
                ) == self.arena());
            }
        }
        node_id
    }

    /// The text of the node at `node`, indented `indent` levels, or
    /// nothing when the position is outside the arena.
    pub fn to_string(&self, node: NodeId, indent: usize) -> (r: Option<String>)
        requires
            arena_wf(self.arena()),
            indent + self.arena().len() - node.0 <= usize::MAX,
        ensures
            match r {
                Some(t) => spec_render(self.arena(), node.0 as int, indent as nat) == Some(t@),
                None => spec_render(self.arena(), node.0 as int, indent as nat) is None,
            },
        decreases self.arena().len() - node.0,
    {
        let n_idx = node.0;
        if n_idx >= self.nodes.len() {
            return None;
        }
        let current = self.nodes[n_idx];
        if current.is_leaf() {
            return Some("*".to_owned());
        }
        let ind = indent_string(indent);
        let set_text: Option<String> = match current.set {
            Some(child) => self.to_string(child, indent + 1),
            None => None,
        };
        let link_text: Option<String> = match current.link {
            Some(child) => self.to_string(child, indent + 1),
            None => None,
        };
        let offset_text: Option<String> = match current.offset {
            Some(child) => self.to_string(child, indent + 1),
            None => None,
        };
        let mut out = String::new();
        out.append("\n");
        out.append(ind.as_str());
        out.append("s");
        match &set_text {
            Some(t) => out.append(t.as_str()),
            None => (),
        }
        out.append("\n");
        out.append(ind.as_str());
        out.append("l");
        match &link_text {
            Some(t) => out.append(t.as_str()),
            None => (),
        }
        out.append("\n");
        out.append(ind.as_str());
        out.append("o");
        match &offset_text {
            Some(t) => out.append(t.as_str()),
            None => (),
        }
        proof {
            let nodes = self.arena();
            let st = match nodes[n_idx as int].set {
                Some(nid) => match spec_render(nodes, nid.0 as int, (indent + 1) as nat) {
                    Some(t) => t,
                    None => Seq::<char>::empty(),
                },
                None => Seq::<char>::empty(),
            };
            let lt = match nodes[n_idx as int].link {
                Some(nid) => match spec_render(nodes, nid.0 as int, (indent + 1) as nat) {
                    Some(t) => t,
                    None => Seq::<char>::empty(),
                },
                None => Seq::<char>::empty(),
            };
            let ot = match nodes[n_idx as int].offset {
                Some(nid) => match spec_render(nodes, nid.0 as int, (indent + 1) as nat) {
                    Some(t) => t,
                    None => Seq::<char>::empty(),
                },
                None => Seq::<char>::empty(),
            };
            assert(out@ =~= "\n"@ + spec_indent(indent as nat) + "s"@ + st + "\n"@ + spec_indent(
                indent as nat,
            ) + "l"@ + lt + "\n"@ + spec_indent(indent as nat) + "o"@ + ot);
        }
        Some(out)
    }

    /// The whole tree's text: the root's rendering, or the policy's
    /// placeholder when no tree was built.
    pub fn render(&self) -> (r: String)
        requires
            arena_wf(self.arena()),
        ensures
            r@ == spec_tree_text(self.arena(), self.trimming()),
    {
        // reading the length puts the arena's usize bound in scope,
        // which the root call's indent bound asks for
        let _arena_len = self.nodes.len();
        match self.to_string(NodeId(0), 0) {
            Some(t) => t,
            None => if self.trimming_enabled {
                "0 and 1 are unrepresentable in trimmed notation".to_owned()
            } else {
                let empty = String::new();
                proof {
                    reveal_strlit("");
                    assert(empty@ =~= ""@);
                }
                empty
            },
        }
    }
}

/// Two spaces repeated `indent` times.
fn indent_string(indent: usize) -> (r: String)
    ensures
        r@ == spec_indent(indent as nat),
{
    let mut out = String::new();
    let mut i: usize = 0;
    proof {
        assert(out@ =~= spec_indent(0));
    }
    while i < indent
        invariant
            i <= indent,
            out@ == spec_indent(i as nat),
        decreases indent - i,
    {
        out.append("  ");
        i = i + 1;
    }
    out
}

/// A node renders as `*` exactly when it has no set, link, or offset
/// edge.
pub proof fn lemma_leaf_renders_star(nodes: Seq<Node>, node: int, indent: nat)
    requires
        arena_wf(nodes),
        0 <= node < nodes.len(),
    ensures
        (spec_render(nodes, node, indent) == Some("*"@)) <==> spec_is_leaf(nodes[node]),
{
    reveal_strlit("*");
    reveal_strlit("\n");
    if !spec_is_leaf(nodes[node]) {
        let t = ("\n"@ + spec_indent(indent) + "s"@) + {
            match nodes[node].set {
                Some(nid) => match spec_render(nodes, nid.0 as int, (indent + 1) as nat) {
                    Some(t) => t,
                    None => Seq::<char>::empty(),
                },
                None => Seq::<char>::empty(),
            }
        };
        let full = spec_render(nodes, node, indent);
        assert(full is Some);
        assert(full.unwrap()[0] == '\n');
        assert("*"@[0] == '*');
    }
}

/// Tree rendering is deterministic: two arenas built for the same number
/// against the same table under the same trimming policy render as the
/// same text.  The arenas are pinned by `fill_with_num`'s contract, so
/// encoding a number twice can never yield two different texts.
pub proof fn lemma_encoding_deterministic(
    primes: Seq<usize>,
    num: nat,
    trim: bool,
    nodes1: Seq<Node>,
    nodes2: Seq<Node>,
)
    requires
        nodes1 == spec_fill(primes, Seq::<Node>::empty(), num, true, trim, num).0,
        nodes2 == spec_fill(primes, Seq::<Node>::empty(), num, true, trim, num).0,
    ensures
        spec_tree_text(nodes1, trim) == spec_tree_text(nodes2, trim),
{
}

/// With no tree built, rendering yields the policy's placeholder: the
/// explanatory message with trimming on, empty text with trimming off.
pub proof fn lemma_empty_tree_text()
    ensures
        spec_tree_text(Seq::<Node>::empty(), true)
            == "0 and 1 are unrepresentable in trimmed notation"@,
        spec_tree_text(Seq::<Node>::empty(), false) == ""@,
{
    assert(spec_render(Seq::<Node>::empty(), 0, 0) is None);
}

} // verus!
