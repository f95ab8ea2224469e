//! A binary trie over address prefixes.
use crate::types::{Address, Range};
use vstd::prelude::*;

verus! {

/// What a longest-prefix lookup finds: the value of the longest prefix of
/// `bits` that is a key of `m`.
pub open spec fn longest_prefix(m: Map<Seq<bool>, usize>, bits: Seq<bool>) -> Option<usize>
    decreases bits.len(),
{
    if m.contains_key(bits) {
        Some(m[bits])
    } else if bits.len() == 0 {
        None
    } else {
        longest_prefix(m, bits.drop_last())
    }
}

/// Where no prefix of `bits` beyond its first `n` bits is a key, a lookup finds
/// what it finds for these.
proof fn lemma_longest_prefix_is_short(m: Map<Seq<bool>, usize>, bits: Seq<bool>, n: int)
    requires
        0 <= n <= bits.len(),
        forall|k: int| n < k <= bits.len() ==> !m.contains_key(#[trigger] bits.take(k)),
    ensures
        longest_prefix(m, bits) == longest_prefix(m, bits.take(n)),
    decreases bits.len() - n,
{
    assert(bits.take(bits.len() as int) =~= bits);
    if n < bits.len() {
        let shorter = bits.drop_last();
        assert forall|k: int| n < k <= shorter.len() implies !m.contains_key(
            #[trigger] shorter.take(k),
        ) by {
            assert(shorter.take(k) =~= bits.take(k));
        }
        lemma_longest_prefix_is_short(m, shorter, n);
        assert(shorter.take(n) =~= bits.take(n));
    }
}

/// A lookup finds the value of the longest prefix that is a key, and finds
/// nothing if and only if no prefix is a key.
pub proof fn longest_prefix_is_longest(m: Map<Seq<bool>, usize>, bits: Seq<bool>)
    ensures
        match longest_prefix(m, bits) {
            Some(value) => exists|n: int|
                {
                    &&& 0 <= n <= bits.len()
                    &&& m.contains_key(#[trigger] bits.take(n))
                    &&& m[bits.take(n)] == value
                    &&& forall|k: int|
                        n < k <= bits.len() ==> !m.contains_key(#[trigger] bits.take(k))
                },
            None => forall|k: int|
                0 <= k <= bits.len() ==> !m.contains_key(#[trigger] bits.take(k)),
        },
    decreases bits.len(),
{
    assert(bits.take(bits.len() as int) =~= bits);
    if m.contains_key(bits) {
        let n = bits.len() as int;
        assert(m.contains_key(bits.take(n)) && m[bits.take(n)] == longest_prefix(m, bits)->0);
    } else if bits.len() > 0 {
        let shorter = bits.drop_last();
        longest_prefix_is_longest(m, shorter);
        assert forall|k: int| 0 <= k <= shorter.len() implies #[trigger] bits.take(k)
            == shorter.take(k) by {
            assert(bits.take(k) =~= shorter.take(k));
        }
        if let Some(value) = longest_prefix(m, shorter) {
            let n = choose|n: int|
                {
                    &&& 0 <= n <= shorter.len()
                    &&& m.contains_key(#[trigger] shorter.take(n))
                    &&& m[shorter.take(n)] == value
                    &&& forall|k: int|
                        n < k <= shorter.len() ==> !m.contains_key(#[trigger] shorter.take(k))
                };
            assert(m.contains_key(bits.take(n)));
        }
    } else {
        assert forall|k: int| 0 <= k <= bits.len() implies !m.contains_key(
            #[trigger] bits.take(k),
        ) by {
            assert(bits.take(k) =~= bits);
        }
    }
}

/// A node of the trie, which stands for the bits on the way to it.
pub struct TrieNode {
    /// The claim whose prefix ends at this node.
    claim: Option<usize>,
    /// The node that one more bit leads to, if the bit is not set.
    zero: Option<Box<TrieNode>>,
    /// The node that one more bit leads to, if the bit is set.
    one: Option<Box<TrieNode>>,
}

impl TrieNode {
    /// The node that one more bit leads to.
    pub closed spec fn child(self, bit: bool) -> Option<Box<TrieNode>> {
        if bit {
            self.one
        } else {
            self.zero
        }
    }

    /// The claim at the end of `path`.
    pub closed spec fn claim_at(self, path: Seq<bool>) -> Option<usize>
        decreases path.len(),
    {
        if path.len() == 0 {
            self.claim
        } else {
            match self.child(path[0]) {
                Some(node) => node.claim_at(path.drop_first()),
                None => None,
            }
        }
    }

    /// Whether there is a node at the end of `path`.
    pub closed spec fn has_node(self, path: Seq<bool>) -> bool
        decreases path.len(),
    {
        path.len() == 0 || match self.child(path[0]) {
            Some(node) => node.has_node(path.drop_first()),
            None => false,
        }
    }

    /// A path leads to a node if and only if its first bit leads to a child and the rest
    /// leads on from there; the claim at its end is the child's. A claim stands at a node
    /// only.
    pub proof fn paths_lead_through_children(self, bit: bool, rest: Seq<bool>)
        ensures
            self.has_node(Seq::empty()),
            self.child(bit) is None ==> !self.has_node(seq![bit] + rest) && self.claim_at(
                seq![bit] + rest,
            ) is None,
            self.child(bit) is Some ==> self.has_node(seq![bit] + rest) == self.child(
                bit,
            )->0.has_node(rest),
            self.child(bit) is Some ==> self.claim_at(seq![bit] + rest) == self.child(
                bit,
            )->0.claim_at(rest),
    {
        assert((seq![bit] + rest).drop_first() =~= rest);
    }

    /// A node with no claim and no children.
    pub fn new() -> (node: Self)
        ensures
            node.claim_at(Seq::empty()) is None,
            node.child(false) is None,
            node.child(true) is None,
            forall|path: Seq<bool>| #[trigger] node.claim_at(path) is None,
            forall|path: Seq<bool>| #[trigger] node.has_node(path) <==> path.len() == 0,
    {
        TrieNode { claim: None, zero: None, one: None }
    }

    /// Puts the claim at the end of the path that the bits `from..upto` of
    /// `addr` describe, and makes the nodes that are missing on the way.
    fn insert_below(&mut self, addr: &Address, from: usize, upto: usize, claim_idx: usize)
        requires
            addr.valid(),
            from <= upto <= 8 * addr.len,
        ensures
            forall|path: Seq<bool>| #[trigger]
                final(self).claim_at(path) == if path == addr.bits().subrange(
                    from as int,
                    upto as int,
                ) {
                    Some(claim_idx)
                } else {
                    old(self).claim_at(path)
                },
            forall|path: Seq<bool>| #[trigger]
                final(self).has_node(path) <==> old(self).has_node(path) || path.is_prefix_of(
                    addr.bits().subrange(from as int, upto as int),
                ),
        decreases upto - from,
    {
        let ghost target = addr.bits().subrange(from as int, upto as int);
        if from == upto {
            self.claim = Some(claim_idx);
            assert forall|path: Seq<bool>| #[trigger]
                self.claim_at(path) == if path == target {
                    Some(claim_idx)
                } else {
                    old(self).claim_at(path)
                } by {
                if path.len() == 0 {
                    assert(path =~= target);
                }
            }
            assert forall|path: Seq<bool>| #[trigger]
                self.has_node(path) <==> old(self).has_node(path) || path.is_prefix_of(target) by {
                if path.len() > 0 {
                    assert(self.child(path[0]) == old(self).child(path[0]));
                }
            }
        } else {
            let bit: bool = addr.bit(from);
            let slot = if bit {
                &mut self.one
            } else {
                &mut self.zero
            };
            if slot.is_none() {
                *slot = Some(Box::new(TrieNode::new()));
            }
            match slot {
                Some(node) => node.insert_below(addr, from + 1, upto, claim_idx),
                None => {},
            }
            assert(self.child(!bit) == old(self).child(!bit));
            assert(self.child(bit) is Some);
            let ghost rest = addr.bits().subrange(from + 1, upto as int);
            assert(target.drop_first() =~= rest);
            assert forall|path: Seq<bool>| #[trigger]
                self.claim_at(path) == if path == target {
                    Some(claim_idx)
                } else {
                    old(self).claim_at(path)
                } by {
                if path.len() > 0 {
                    if path[0] == bit {
                        let below = path.drop_first();
                        assert(self.claim_at(path) == self.child(bit)->0.claim_at(below));
                        if below == rest {
                            assert(path =~= seq![bit] + rest);
                            assert(target =~= seq![bit] + rest);
                        }
                    } else {
                        assert(self.child(path[0]) == old(self).child(path[0]));
                    }
                }
            }
            assert forall|path: Seq<bool>| #[trigger]
                self.has_node(path) <==> old(self).has_node(path) || path.is_prefix_of(target) by {
                if path.len() > 0 {
                    if path[0] == bit {
                        let below = path.drop_first();
                        assert(self.has_node(path) == self.child(bit)->0.has_node(below));
                        assert(target =~= seq![bit] + rest);
                        assert(path =~= seq![bit] + below);
                        if below.is_prefix_of(rest) {
                            assert(path =~= target.take(path.len() as int));
                        }
                        if path.is_prefix_of(target) {
                            assert(below =~= rest.take(below.len() as int));
                        }
                    } else {
                        assert(self.child(path[0]) == old(self).child(path[0]));
                    }
                }
            }
        }
    }
}

/// A binary trie that finds the claim with the longest prefix of an address,
/// in time proportional to the length of the address.
pub struct ClaimTrie {
    root: TrieNode,
}

impl View for ClaimTrie {
    type V = Map<Seq<bool>, usize>;

    /// The claims by their prefixes.
    closed spec fn view(&self) -> Map<Seq<bool>, usize> {
        Map::new(
            |path: Seq<bool>| self.root.claim_at(path) is Some,
            |path: Seq<bool>| self.root.claim_at(path)->0,
        )
    }
}

impl ClaimTrie {
    /// Whether there is a node at the end of `path`.
    pub closed spec fn has_node(self, path: Seq<bool>) -> bool {
        self.root.has_node(path)
    }

    /// A trie with no claims and no node but its root.
    pub fn new() -> (trie: Self)
        ensures
            trie@ == Map::<Seq<bool>, usize>::empty(),
            forall|path: Seq<bool>| #[trigger] trie.has_node(path) <==> path.len() == 0,
    {
        ClaimTrie { root: TrieNode::new() }
    }

    /// Inserts a claim with its index in the list of claims. A claim that was
    /// inserted before with the same prefix is replaced. The nodes that are missing
    /// on the way to the end of the prefix are made, and no others.
    pub fn insert(&mut self, range: &Range, claim_idx: usize)
        requires
            range.valid(),
        ensures
            final(self)@ == old(self)@.insert(range.prefix(), claim_idx),
            forall|path: Seq<bool>| #[trigger]
                final(self).has_node(path) <==> old(self).has_node(path) || path.is_prefix_of(
                    range.prefix(),
                ),
    {
        let prefix_len: usize = range.prefix_len as usize;
        let max_bits: usize = range.base.len as usize * 8;
        let bits_to_check: usize = if prefix_len < max_bits {
            prefix_len
        } else {
            max_bits
        };
        assert(range.prefix() =~= range.base.bits().subrange(0, bits_to_check as int));
        self.root.insert_below(&range.base, 0, bits_to_check, claim_idx);
    }

    /// Finds the claim with the longest prefix of the given address, as its
    /// index in the list of claims.
    pub fn longest_match(&self, addr: &Address) -> (best_match: Option<usize>)
        requires
            addr.valid(),
        ensures
            best_match == longest_prefix(self@, addr.bits()),
    {
        let mut node: &TrieNode = &self.root;
        let mut best_match: Option<usize> = node.claim;
        let max_bits: usize = addr.len as usize * 8;
        let ghost bits = addr.bits();
        let mut bit_idx: usize = 0;
        proof {
            assert forall|rest: Seq<bool>| #[trigger]
                self.root.claim_at(bits.take(0) + rest) == node.claim_at(rest) by {
                assert(bits.take(0) + rest =~= rest);
            }
            assert(bits.take(0) + Seq::<bool>::empty() =~= bits.take(0));
        }
        while bit_idx < max_bits
            invariant
                addr.valid(),
                bits == addr.bits(),
                max_bits == 8 * addr.len,
                bit_idx <= max_bits,
                forall|rest: Seq<bool>| #[trigger]
                    self.root.claim_at(bits.take(bit_idx as int) + rest) == node.claim_at(rest),
                best_match == longest_prefix(self@, bits.take(bit_idx as int)),
            decreases max_bits - bit_idx,
        {
            let ghost here = bits.take(bit_idx as int);
            let bit: bool = addr.bit(bit_idx);
            let next: &Option<Box<TrieNode>> = if bit {
                &node.one
            } else {
                &node.zero
            };
            match next {
                Some(child) => {
                    let ghost parent = *node;
                    node = child;
                    proof {
                        let there = bits.take(bit_idx + 1);
                        assert(there.drop_last() =~= here);
                        assert forall|rest: Seq<bool>| #[trigger]
                            self.root.claim_at(there + rest) == node.claim_at(rest) by {
                            let step = seq![bit] + rest;
                            assert(there + rest =~= here + step);
                            assert(step.drop_first() =~= rest);
                            assert(self.root.claim_at(here + step) == parent.claim_at(step));
                        }
                        assert(there + Seq::<bool>::empty() =~= there);
                    }
                    if node.claim.is_some() {
                        best_match = node.claim;
                    }
                },
                None => {
                    proof {
                        assert forall|n: int| bit_idx < n <= bits.len() implies !self@.contains_key(
                            #[trigger] bits.take(n),
                        ) by {
                            let rest = bits.subrange(bit_idx as int, n);
                            assert(bits.take(n) =~= here + rest);
                            assert(self.root.claim_at(here + rest) == node.claim_at(rest));
                        }
                        lemma_longest_prefix_is_short(self@, bits, bit_idx as int);
                    }
                    return best_match;
                },
            }
            bit_idx += 1;
        }
        assert(bits.take(bit_idx as int) =~= bits);
        best_match
    }

    /// Removes all claims and all nodes but the root.
    pub fn clear(&mut self)
        ensures
            final(self)@ == Map::<Seq<bool>, usize>::empty(),
            forall|path: Seq<bool>| #[trigger] final(self).has_node(path) <==> path.len() == 0,
    {
        self.root = TrieNode::new();
    }
}

} // verus!
