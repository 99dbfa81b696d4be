//! Drawing peers at random, each at most once, while avoiding excluded ones.
use rand::rngs::ThreadRng;
use vstd::multiset::Multiset;
use vstd::prelude::*;

use crate::graph::NodeIndex;
use crate::rng;

verus! {

/// `a - b`, or 0 when `b` exceeds `a`.
pub open spec fn floor_sub(a: nat, b: nat) -> nat {
    if a >= b {
        (a - b) as nat
    } else {
        0
    }
}

/// A source of peers: the indices below `peer_count`, never one that is
/// excluded. A generated peer becomes excluded.
pub trait PeerGenerator {
    /// Peers are the indices below this count.
    spec fn peer_count(&self) -> nat;

    /// Whether a peer will not be generated.
    spec fn is_excluded(&self, peer: NodeIndex) -> bool;

    /// The generator's internal well-formedness.
    spec fn inv(&self) -> bool;

    /// How many more peers the generator gives before it runs out.
    spec fn remaining(&self) -> nat;

    /// The peers given so far, in the order they were given.
    spec fn drawn(&self) -> Seq<NodeIndex>;

    /// Generates a peer that is not excluded, if there is one left to give:
    /// none exactly when none remains, and each peer given leaves one fewer.
    fn generate_peer(&mut self) -> (r: Option<NodeIndex>)
        requires
            old(self).inv(),
        ensures
            final(self).inv(),
            final(self).peer_count() == old(self).peer_count(),
            r matches Some(p) ==> p < old(self).peer_count() && !old(self).is_excluded(p),
            forall|q: NodeIndex|
                #[trigger] final(self).is_excluded(q) <==> (old(self).is_excluded(q) || r == Some(
                    q,
                )),
            r is None <==> old(self).remaining() == 0,
            r is Some ==> final(self).remaining() == old(self).remaining() - 1,
            r is None ==> final(self).remaining() == 0,
            r matches Some(p) ==> final(self).drawn() == old(self).drawn().push(p),
            r is None ==> final(self).drawn() == old(self).drawn(),
    ;

    /// Excludes more peers; each of them counts against the peers that
    /// remain.
    fn exclude(&mut self, additional_excludes: Vec<NodeIndex>)
        requires
            old(self).inv(),
        ensures
            final(self).inv(),
            final(self).peer_count() == old(self).peer_count(),
            final(self).remaining() == floor_sub(old(self).remaining(), additional_excludes@.len()),
            final(self).drawn() == old(self).drawn(),
            forall|q: NodeIndex|
                #[trigger] final(self).is_excluded(q) <==> (old(self).is_excluded(q)
                    || additional_excludes@.contains(q)),
    ;
}

/// Whether a sequence is sorted in non-decreasing order.
pub open spec fn sorted(s: Seq<NodeIndex>) -> bool {
    forall|i: int, j: int| 0 <= i <= j < s.len() ==> s[i] <= s[j]
}

/// Inserting an element into a sequence adds it to the sequence's multiset.
proof fn lemma_insert_to_multiset(s: Seq<NodeIndex>, i: int, x: NodeIndex)
    requires
        0 <= i <= s.len(),
    ensures
        s.insert(i, x).to_multiset() =~= s.to_multiset().insert(x),
{
    broadcast use vstd::seq_lib::group_to_multiset_ensures;

    let t = s.insert(i, x);
    s.insert_ensures(i, x);
    assert(t.remove(i) =~= s);
    assert(t.remove(i).to_multiset() =~= t.to_multiset().remove(t[i]));
    assert(t.contains(x));
    assert(t.to_multiset().count(x) > 0);
}

/// An element is in a sequence after an insertion exactly when it was in it
/// before or is the inserted one.
proof fn lemma_insert_contains(s: Seq<NodeIndex>, i: int, x: NodeIndex)
    requires
        0 <= i <= s.len(),
    ensures
        forall|q: NodeIndex| #[trigger] s.insert(i, x).contains(q) <==> (s.contains(q) || q == x),
{
    broadcast use vstd::seq_lib::group_to_multiset_ensures;

    lemma_insert_to_multiset(s, i, x);
    assert forall|q: NodeIndex| #[trigger] s.insert(i, x).contains(q) <==> (s.contains(q) || q
        == x) by {
        assert(s.insert(i, x).to_multiset().count(q) == s.to_multiset().insert(x).count(q));
    }
}

/// Inserts `x` into the sorted `v`, before the first element larger than it.
fn insert_sorted(v: &mut Vec<NodeIndex>, x: NodeIndex) -> (pos: usize)
    requires
        sorted(old(v)@),
    ensures
        sorted(final(v)@),
        pos <= old(v)@.len(),
        final(v)@ == old(v)@.insert(pos as int, x),
        final(v)@.to_multiset() == old(v)@.to_multiset().insert(x),
        forall|q: NodeIndex| #[trigger] final(v)@.contains(q) <==> (old(v)@.contains(q) || q == x),
{
    let mut i: usize = 0;
    while i < v.len() && v[i] <= x
        invariant
            i <= v.len(),
            forall|j: int| 0 <= j < i ==> v[j] <= x,
        decreases v.len() - i,
    {
        i = i + 1;
    }
    let ghost before = v@;
    v.insert(i, x);
    proof {
        before.insert_ensures(i as int, x);
        lemma_insert_to_multiset(before, i as int, x);
        lemma_insert_contains(before, i as int, x);
        assert forall|a: int, b: int| 0 <= a <= b < v@.len() implies v@[a] <= v@[b] by {
            if a < i && b > i {
                assert(v@[b] == before[b - 1]);
                assert(before[i as int] > x);
                assert(before[i as int] <= before[b - 1]);
            } else if a == i && b > i {
                assert(v@[b] == before[b - 1]);
                assert(before[i as int] <= before[b - 1]);
            } else if a > i {
                assert(v@[b] == before[b - 1]);
                assert(v@[a] == before[a - 1]);
            }
        }
    }
    i
}

/// Draws peers uniformly among those not yet excluded, using a sorted list of
/// the excluded ones.
pub struct RandomPeerGenerator {
    excluded: Vec<NodeIndex>,
    num_peers: usize,
    rng: ThreadRng,
    drawn: Ghost<Seq<NodeIndex>>,
}

impl RandomPeerGenerator {
    /// The excluded peers, sorted.
    pub closed spec fn excluded_seq(&self) -> Seq<NodeIndex> {
        self.excluded@
    }

    /// A generator of the peers below `num_peers` but those in `excluded`,
    /// each of which must be a peer.
    pub fn new(num_peers: usize, excluded: Vec<NodeIndex>, rng: &mut ThreadRng) -> (g: Self)
        requires
            forall|i: int| 0 <= i < excluded.len() ==> excluded[i] < num_peers,
        ensures
            g.inv(),
            g.peer_count() == num_peers,
            g.excluded_seq().to_multiset() == excluded@.to_multiset(),
            g.remaining() == floor_sub(num_peers as nat, excluded@.len()),
            g.drawn() == Seq::<NodeIndex>::empty(),
            forall|q: NodeIndex| #[trigger] g.is_excluded(q) <==> excluded@.contains(q),
    {
        let mut g = RandomPeerGenerator {
            excluded: Vec::new(),
            num_peers,
            rng: rng::share_rng(rng),
            drawn: Ghost(Seq::empty()),
        };
        proof {
            broadcast use vstd::seq_lib::group_to_multiset_ensures;

            assert(g.excluded@.to_multiset() =~= Multiset::empty());
        }
        g.add_excluded(excluded);
        assert(g.excluded@.to_multiset() =~= excluded@.to_multiset());
        g
    }

    /// Inserts each of `additional` into the sorted list of excluded peers.
    fn add_excluded(&mut self, additional: Vec<NodeIndex>)
        requires
            sorted(old(self).excluded@),
        ensures
            sorted(final(self).excluded@),
            final(self).num_peers == old(self).num_peers,
            final(self).drawn == old(self).drawn,
            final(self).excluded@.len() == old(self).excluded@.len() + additional@.len(),
            final(self).excluded@.to_multiset() == old(self).excluded@.to_multiset().add(
                additional@.to_multiset(),
            ),
            forall|q: NodeIndex| #[trigger] final(self).excluded@.contains(q) <==> (old(
                self,
            ).excluded@.contains(q) || additional@.contains(q)),
    {
        broadcast use vstd::seq_lib::group_to_multiset_ensures;

        let ghost start = self.excluded@;
        let mut k: usize = 0;
        while k < additional.len()
            invariant
                k <= additional.len(),
                sorted(self.excluded@),
                self.num_peers == old(self).num_peers,
                self.drawn == old(self).drawn,
                start == old(self).excluded@,
                self.excluded@.len() == start.len() + k,
                self.excluded@.to_multiset() == start.to_multiset().add(
                    additional@.take(k as int).to_multiset(),
                ),
                forall|q: NodeIndex| #[trigger] self.excluded@.contains(q) <==> (start.contains(q)
                    || additional@.take(k as int).contains(q)),
            decreases additional.len() - k,
        {
            insert_sorted(&mut self.excluded, additional[k]);
            proof {
                broadcast use vstd::seq_lib::group_seq_properties;

                assert(additional@.take(k + 1) =~= additional@.take(k as int).push(additional[k as int]));
            }
            k = k + 1;
        }
        assert(additional@.take(k as int) =~= additional@);
    }
}

impl PeerGenerator for RandomPeerGenerator {
    closed spec fn peer_count(&self) -> nat {
        self.num_peers as nat
    }

    open spec fn is_excluded(&self, peer: NodeIndex) -> bool {
        self.excluded_seq().contains(peer)
    }

    open spec fn inv(&self) -> bool {
        sorted(self.excluded_seq())
    }

    /// The peers that are not counted as excluded (an exclusion counts as
    /// often as it was made).
    closed spec fn drawn(&self) -> Seq<NodeIndex> {
        self.drawn@
    }

    open spec fn remaining(&self) -> nat {
        floor_sub(self.peer_count(), self.excluded_seq().len())
    }

    /// Draws `r` below the number of peers not excluded, and returns the
    /// `r`-th such peer; there is none left when the excluded list is as long
    /// as the number of peers.
    fn generate_peer(&mut self) -> (r: Option<NodeIndex>)
        ensures
            (r is None) <==> old(self).peer_count() <= old(self).excluded_seq().len(),
            r matches Some(p) ==> final(self).excluded_seq().to_multiset() == old(
                self,
            ).excluded_seq().to_multiset().insert(p),
            r is None ==> final(self).excluded_seq() == old(self).excluded_seq(),
    {
        if self.num_peers <= self.excluded.len() {
            return None;
        }
        let remaining = self.num_peers - self.excluded.len();
        let drawn = rng::random_usize(&mut self.rng, 0, remaining);
        let mut result = drawn;
        let mut i: usize = 0;
        let mut inserted = false;
        let ghost before = self.excluded@;
        while i < self.excluded.len()
            invariant_except_break
                !inserted,
                self.excluded@ == before,
            invariant
                i <= before.len(),
                result == drawn + i,
                drawn < remaining,
                remaining == self.num_peers - before.len(),
                self.drawn == old(self).drawn,
                self.num_peers == old(self).num_peers,
                sorted(before),
                forall|j: int| 0 <= j < i ==> before[j] < result,
                !inserted ==> self.excluded@ == before,
                inserted ==> {
                    &&& self.excluded@ == before.insert(i as int, result)
                    &&& i < before.len()
                    &&& before[i as int] > result
                },
            ensures
                result < self.num_peers,
                !before.contains(result),
                inserted ==> self.excluded@ == before.insert(i as int, result) && sorted(
                    self.excluded@,
                ) && i < before.len() && before[i as int] > result,
                !inserted ==> self.excluded@ == before && i == before.len(),
            decreases before.len() - i,
        {
            if self.excluded[i] > result {
                self.excluded.insert(i, result);
                inserted = true;
                proof {
                    before.insert_ensures(i as int, result);
                    assert forall|a: int, b: int|
                        0 <= a <= b < self.excluded@.len() implies self.excluded@[a]
                        <= self.excluded@[b] by {
                        if b < i {
                        } else if a == i as int {
                            if b > i {
                                assert(self.excluded@[b] == before[b - 1]);
                            }
                        } else if a < i {
                            if b > i {
                                assert(self.excluded@[b] == before[b - 1]);
                            }
                        } else {
                            assert(self.excluded@[b] == before[b - 1]);
                            assert(self.excluded@[a] == before[a - 1]);
                        }
                    }
                    assert forall|j: int| 0 <= j < before.len() implies before[j] != result by {
                        if j >= i {
                            assert(before[i as int] <= before[j]);
                        }
                    }
                }
                break;
            }
            result = result + 1;
            i = i + 1;
        }
        let len = self.excluded.len();
        if len == 0 || self.excluded[len - 1] < result {
            self.excluded.push(result);
        }
        proof {
            if inserted {
                before.insert_ensures(i as int, result);
                assert(self.excluded@[len - 1] == before[before.len() - 1]);
                assert(before[i as int] <= before[before.len() - 1]);
                lemma_insert_to_multiset(before, i as int, result);
            } else {
                assert(self.excluded@ =~= before.insert(before.len() as int, result));
                lemma_insert_to_multiset(before, before.len() as int, result);
            }
            if inserted {
                lemma_insert_contains(before, i as int, result);
            } else {
                lemma_insert_contains(before, before.len() as int, result);
            }
        }
        self.drawn = Ghost(self.drawn@.push(result));
        Some(result)
    }

    fn exclude(&mut self, additional_excludes: Vec<NodeIndex>)
        ensures
            final(self).excluded_seq().to_multiset() == old(self).excluded_seq().to_multiset().add(
                additional_excludes@.to_multiset(),
            ),
    {
        self.add_excluded(additional_excludes);
    }
}

} // verus!
