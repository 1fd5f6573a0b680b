//! The peeling decoder: rebuilds the message from droplets, one at a time.
use vstd::prelude::*;
use crate::droplet::{DropType, Droplet, RxDroplet};
use crate::sampling::{get_sample_from_rng_by_seed, seeded_indices};
use crate::xor::{
    bxor, chunks_sized, indices_below, lemma_bxor_assoc, lemma_bxor_cancel, lemma_bxor_comm,
    lemma_bxor_zero, lemma_xor_of_len, lemma_xor_of_push, lemma_xor_of_remove, xor_into, xor_of, zeros,
};

verus! {

/// Progress of a decoder, reported on every step.
#[derive(Debug, Clone, Copy, PartialEq, Eq, Structural)]
pub struct Statistics {
    /// Droplets caught so far.
    pub cnt_droplets: usize,
    /// Chunks in the message.
    pub cnt_chunks: usize,
    /// Chunks resolved so far.
    pub resolved_chunks: usize,
}

/// What a decoder says after catching a droplet.
#[derive(Debug)]
pub enum CatchResult {
    /// Every chunk is resolved: the message, and the progress.
    Finished(Vec<u8>, Statistics),
    /// Some chunks are still unknown.
    Missing(Statistics),
}

/// Number of chunks of `b` bytes that hold `len` bytes.
pub open spec fn chunk_count(len: nat, b: nat) -> nat
    recommends
        b > 0,
{
    ((len + b - 1) / b as int) as nat
}

/// The chunk indices that a droplet stands for, in a message of `k` chunks.
pub open spec fn droplet_indices(dt: DropType, k: usize) -> Seq<usize> {
    match dt {
        DropType::Seeded(seed, degree) => seeded_indices(seed, k, degree),
        DropType::Edges(i) => seq![i],
    }
}

/// The droplet carries, in its first `b` bytes, the XOR of the chunks of `c` that it names.
pub open spec fn droplet_matches(dt: DropType, data: Seq<u8>, c: Seq<Seq<u8>>, k: usize, b: nat) -> bool {
    &&& data.len() >= b
    &&& data.take(b as int) == xor_of(c, droplet_indices(dt, k), b)
}

/// How often `x` occurs in `s`.
pub open spec fn occurrences(s: Seq<usize>, x: usize) -> nat
    decreases s.len(),
{
    if s.len() == 0 {
        0
    } else {
        (if s[0] == x { 1nat } else { 0nat }) + occurrences(s.drop_first(), x)
    }
}

/// The chunks that a droplet naming `idxs` still depends on, given which chunks are
/// known: the unknown ones named an odd number of times (pairs cancel under XOR).
pub open spec fn active_set(idxs: Seq<usize>, known: Seq<bool>) -> Set<usize> {
    Set::new(|x: usize| x < known.len() && !known[x as int] && occurrences(idxs, x) % 2 == 1)
}

/// A droplet naming `idxs` depends on chunk `a` alone, and so resolves it.
pub open spec fn peels(idxs: Seq<usize>, known: Seq<bool>, a: usize) -> bool {
    active_set(idxs, known) == set![a]
}

/// How the set of resolved chunks may change when a droplet naming `idxs` is
/// caught: nothing is forgotten; a droplet that depends on a single unknown chunk
/// resolves it; any other droplet resolves nothing.
pub open spec fn resolution_step(before: Seq<bool>, idxs: Seq<usize>, after: Seq<bool>) -> bool {
    &&& after.len() == before.len()
    &&& forall|i: int| 0 <= i < before.len() && before[i] ==> #[trigger] after[i]
    &&& forall|a: usize| #[trigger] peels(idxs, before, a) ==> after[a as int]
    &&& (forall|a: usize| !#[trigger] peels(idxs, before, a)) ==> after == before
}

/// Every pending droplet still in use names at least two chunks, each once.
spec fn live_distinct(pending: Seq<RxDroplet>) -> bool {
    forall|p: int|
        0 <= p < pending.len() && (#[trigger] pending[p]).edges_idx@.len() > 0 ==> pending[p].edges_idx@.no_duplicates()
            && pending[p].edges_idx@.len() >= 2
}

/// Every chunk that a pending droplet in use names is unknown, or waits in `w`
/// to be XORed out.
spec fn unknown_or_waiting(pending: Seq<RxDroplet>, known: Seq<bool>, w: Seq<usize>) -> bool {
    forall|p: int, u: int|
        #![trigger pending[p].edges_idx@[u]]
        0 <= p < pending.len() && 0 <= u < pending[p].edges_idx@.len() ==> !known[pending[p].edges_idx@[u] as int]
            || w.contains(pending[p].edges_idx@[u])
}

/// Every pending droplet in use is listed under each chunk it names; for chunk
/// `i`, the list is `rest` instead.
spec fn indexed_except(pending: Seq<RxDroplet>, edges: Seq<Vec<usize>>, i: int, rest: Seq<usize>) -> bool {
    forall|p: int, u: int|
        #![trigger pending[p].edges_idx@[u]]
        0 <= p < pending.len() && 0 <= u < pending[p].edges_idx@.len() ==> if pending[p].edges_idx@[u] as int == i {
            rest.contains(p as usize)
        } else {
            edges[pending[p].edges_idx@[u] as int]@.contains(p as usize)
        }
}

/// `d` names `x` an odd number of times.
pub open spec fn odd_in(d: Seq<usize>, x: usize) -> bool {
    occurrences(d, x) % 2 == 1
}

/// Every chunk that `d` names an odd number of times is resolved.
pub open spec fn settled(d: Seq<usize>, known: Seq<bool>) -> bool {
    forall|x: usize| #[trigger] odd_in(d, x) ==> x < known.len() && known[x as int]
}

/// No droplet of `ds` peels a chunk, given the resolved chunks `known`.
pub open spec fn closed_under(ds: Seq<Seq<usize>>, known: Seq<bool>) -> bool {
    forall|j: int, a: usize| 0 <= j < ds.len() ==> !#[trigger] peels(ds[j], known, a)
}

/// Every chunk resolved in `k1` is resolved in `k2`.
pub open spec fn included(k1: Seq<bool>, k2: Seq<bool>) -> bool {
    forall|x: int| 0 <= x < k1.len() && #[trigger] k1[x] ==> k2[x]
}

/// Every set of resolved chunks that is closed under peeling by `ds` holds `known`.
pub open spec fn below_closed(ds: Seq<Seq<usize>>, known: Seq<bool>) -> bool {
    forall|t: Seq<bool>| t.len() == known.len() && #[trigger] closed_under(ds, t) ==> included(known, t)
}

/// `known` is the least set of chunks that is closed under peeling by the
/// droplets `ds`: what peeling them reaches, in whatever order.
pub open spec fn least_closed(ds: Seq<Seq<usize>>, known: Seq<bool>) -> bool {
    &&& closed_under(ds, known)
    &&& below_closed(ds, known)
}

/// How the pending droplets stand to the droplets caught: each entry comes from
/// caught droplet `origin[p]`, names only chunks that droplet names an odd number
/// of times, and every such chunk that is unknown; each caught droplet is settled
/// or has its live entry `home[j]`.
spec fn linked(
    pending: Seq<RxDroplet>,
    known: Seq<bool>,
    hist: Seq<Seq<usize>>,
    origin: Seq<int>,
    home: Seq<int>,
) -> bool {
    &&& origin.len() == pending.len()
    &&& home.len() == hist.len()
    &&& forall|j: int| 0 <= j < hist.len() ==> indices_below(#[trigger] hist[j], known.len())
    &&& forall|p: int| 0 <= p < pending.len() ==> 0 <= #[trigger] origin[p] < hist.len()
    &&& forall|p: int, u: int|
        #![trigger pending[p].edges_idx@[u]]
        0 <= p < pending.len() && 0 <= u < pending[p].edges_idx@.len() ==> odd_in(
            hist[origin[p]],
            pending[p].edges_idx@[u],
        )
    &&& forall|p: int, x: usize|
        0 <= p < pending.len() && pending[p].edges_idx@.len() > 0 && #[trigger] odd_in(hist[origin[p]], x)
            && !known[x as int] ==> pending[p].edges_idx@.contains(x)
    &&& forall|j: int|
        0 <= j < hist.len() ==> settled(hist[j], known) || (0 <= #[trigger] home[j] < pending.len()
            && origin[home[j]] == j && pending[home[j]].edges_idx@.len() > 0)
}

/// Number of `true` entries.
pub open spec fn count_true(s: Seq<bool>) -> nat
    decreases s.len(),
{
    if s.len() == 0 {
        0
    } else {
        count_true(s.drop_last()) + (if s.last() { 1nat } else { 0nat })
    }
}

/// The message of `len` bytes laid out over chunks of `b` bytes.
pub open spec fn assemble(chunks: Seq<Seq<u8>>, b: nat, len: nat) -> Seq<u8> {
    Seq::new(len, |p: int| chunks[p / (b as int)][p % (b as int)])
}

/// Decoder for Luby Transform codes: one per message.
pub struct Decoder {
    total_length: usize,
    blocksize: usize,
    cnt_chunks: usize,
    cnt_received: usize,
    resolved: usize,
    /// Content of each chunk, valid where `known` holds.
    chunks: Vec<Vec<u8>>,
    known: Vec<bool>,
    /// Droplets that still depend on two or more unknown chunks; an emptied
    /// entry is spent.
    pending: Vec<RxDroplet>,
    /// For each chunk, the pending droplets that may depend on it.
    edges: Vec<Vec<usize>>,
    /// The chunk indices of every droplet caught, in order.
    history: Ghost<Seq<Seq<usize>>>,
    /// For each pending entry, the caught droplet it comes from.
    origin: Ghost<Seq<int>>,
    /// For each caught droplet, its pending entry, if it was given one.
    home: Ghost<Seq<int>>,
}

impl Decoder {
    pub closed spec fn spec_total_length(&self) -> nat {
        self.total_length as nat
    }

    pub closed spec fn spec_blocksize(&self) -> nat {
        self.blocksize as nat
    }

    pub closed spec fn spec_cnt_chunks(&self) -> usize {
        self.cnt_chunks
    }

    pub closed spec fn spec_cnt_received(&self) -> nat {
        self.cnt_received as nat
    }

    /// Which chunks are resolved.
    pub closed spec fn known_view(&self) -> Seq<bool> {
        self.known@
    }

    /// The content held for each chunk (meaningful where it is resolved).
    pub closed spec fn chunks_view(&self) -> Seq<Seq<u8>> {
        self.chunks@.map_values(|v: Vec<u8>| v@)
    }

    /// The chunk indices of every droplet caught so far, in order.
    pub closed spec fn caught(&self) -> Seq<Seq<usize>> {
        self.history@
    }

    /// No pending droplet is in use.
    pub closed spec fn nothing_pending(&self) -> bool {
        forall|p: int| 0 <= p < self.pending@.len() ==> (#[trigger] self.pending@[p]).edges_idx@.len() == 0
    }

    /// The resolved chunks are what peeling the caught droplets reaches.
    pub closed spec fn peeled(&self) -> bool {
        &&& linked(self.pending@, self.known@, self.history@, self.origin@, self.home@)
        &&& least_closed(self.history@, self.known@)
    }

    /// Number of resolved chunks.
    pub closed spec fn resolved_count(&self) -> nat {
        self.resolved as nat
    }

    pub closed spec fn wf(&self) -> bool {
        &&& self.blocksize > 0
        &&& self.total_length > 0
        &&& self.cnt_chunks == chunk_count(self.total_length as nat, self.blocksize as nat)
        &&& self.total_length + self.blocksize <= usize::MAX
        &&& self.known@.len() == self.cnt_chunks
        &&& self.chunks@.len() == self.cnt_chunks
        &&& self.edges@.len() == self.cnt_chunks
        &&& forall|i: int| 0 <= i < self.cnt_chunks ==> (#[trigger] self.chunks@[i])@.len() == self.blocksize
        &&& self.resolved == count_true(self.known@)
        &&& self.resolved <= self.cnt_chunks
        &&& forall|p: int|
            0 <= p < self.pending@.len() && (#[trigger] self.pending@[p]).edges_idx@.len() > 0
                ==> self.pending@[p].data@.len() == self.blocksize
        &&& forall|p: int| 0 <= p < self.pending@.len() ==> indices_below(
            (#[trigger] self.pending@[p]).edges_idx@,
            self.cnt_chunks as nat,
        )
        &&& forall|i: int, t: int|
            0 <= i < self.cnt_chunks && 0 <= t < self.edges@[i]@.len() ==> #[trigger] self.edges@[i]@[t]
                < self.pending@.len()
    }

    /// The peeling is done: every pending droplet still in use depends on two or
    /// more distinct unknown chunks, and is listed under each of them.
    pub closed spec fn reduced(&self) -> bool {
        &&& live_distinct(self.pending@)
        &&& unknown_or_waiting(self.pending@, self.known@, Seq::empty())
        &&& indexed_except(self.pending@, self.edges@, -1, Seq::empty())
    }

    /// What this decoder holds agrees with the message chunks `c`: every resolved
    /// chunk equals its chunk of `c`, and every live pending droplet carries the XOR
    /// of the chunks of `c` that it still depends on.
    pub closed spec fn consistent(&self, c: Seq<Seq<u8>>) -> bool {
        &&& c.len() == self.cnt_chunks
        &&& chunks_sized(c, self.blocksize as nat)
        &&& forall|i: int| 0 <= i < self.cnt_chunks && #[trigger] self.known@[i] ==> self.chunks@[i]@ == c[i]
        &&& forall|p: int|
            0 <= p < self.pending@.len() && (#[trigger] self.pending@[p]).edges_idx@.len() > 0
                ==> self.pending@[p].data@ == xor_of(
                c,
                self.pending@[p].edges_idx@,
                self.blocksize as nat,
            )
    }

    /// Length of the message in bytes.
    pub fn total_length(&self) -> (r: usize)
        ensures
            r == self.spec_total_length(),
    {
        self.total_length
    }

    /// Size of a chunk in bytes.
    pub fn blocksize(&self) -> (r: usize)
        ensures
            r == self.spec_blocksize(),
    {
        self.blocksize
    }

    /// A decoder for a message of `total_length` bytes in chunks of `blocksize` bytes.
    pub fn new(total_length: usize, blocksize: usize) -> (r: Decoder)
        requires
            0 < total_length,
            0 < blocksize,
            total_length + blocksize <= usize::MAX,
        ensures
            r.wf(),
            r.reduced(),
            r.peeled(),
            r.caught() == Seq::<Seq<usize>>::empty(),
            r.nothing_pending(),
            r.spec_total_length() == total_length,
            r.spec_blocksize() == blocksize,
            r.spec_cnt_chunks() == chunk_count(total_length as nat, blocksize as nat),
            r.spec_cnt_received() == 0,
            r.resolved_count() == 0,
            forall|i: int| 0 <= i < r.spec_cnt_chunks() ==> !(#[trigger] r.known_view()[i]),
            forall|c: Seq<Seq<u8>>|
                c.len() == r.spec_cnt_chunks() && chunks_sized(c, blocksize as nat)
                    ==> #[trigger] r.consistent(c),
    {
        let k = (total_length + blocksize - 1) / blocksize;
        let mut chunks: Vec<Vec<u8>> = Vec::new();
        let mut known: Vec<bool> = Vec::new();
        let mut edges: Vec<Vec<usize>> = Vec::new();
        let mut i: usize = 0;
        while i < k
            invariant
                i <= k,
                chunks@.len() == i,
                known@.len() == i,
                edges@.len() == i,
                forall|t: int| 0 <= t < i ==> (#[trigger] chunks@[t])@.len() == blocksize,
                forall|t: int| 0 <= t < i ==> !(#[trigger] known@[t]),
                forall|t: int| 0 <= t < i ==> (#[trigger] edges@[t])@.len() == 0,
            decreases k - i,
        {
            chunks.push(vec![0u8; blocksize]);
            known.push(false);
            edges.push(Vec::new());
            i = i + 1;
        }
        proof {
            lemma_count_true_none(known@);
        }
        Decoder {
            total_length,
            blocksize,
            cnt_chunks: k,
            cnt_received: 0,
            resolved: 0,
            chunks,
            known,
            pending: Vec::new(),
            edges,
            history: Ghost(Seq::empty()),
            origin: Ghost(Seq::empty()),
            home: Ghost(Seq::empty()),
        }
    }

    /// Catches one droplet: works out the chunks it names, removes what is already
    /// known, resolves a chunk if exactly one unknown is left (and everything that
    /// follows from it), or keeps the droplet for later. Reports `Finished` with
    /// the message once every chunk is resolved.
    pub fn catch(&mut self, drop: Droplet) -> (res: CatchResult)
        requires
            old(self).wf(),
            old(self).reduced(),
            old(self).peeled(),
            drop.data@.len() >= old(self).spec_blocksize(),
            match drop.droptype {
                DropType::Edges(i) => i < old(self).spec_cnt_chunks(),
                DropType::Seeded(_, _) => true,
            },
        ensures
            final(self).wf(),
            final(self).reduced(),
            final(self).peeled(),
            final(self).caught() == old(self).caught().push(droplet_indices(drop.droptype, old(self).spec_cnt_chunks())),
            old(self).nothing_pending() && drop.droptype is Edges ==> final(self).nothing_pending()
                && final(self).known_view() == old(self).known_view().update(drop.droptype->Edges_0 as int, true),
            least_closed(final(self).caught(), final(self).known_view()),
            final(self).spec_total_length() == old(self).spec_total_length(),
            final(self).spec_blocksize() == old(self).spec_blocksize(),
            final(self).spec_cnt_chunks() == old(self).spec_cnt_chunks(),
            final(self).spec_cnt_received() == if old(self).spec_cnt_received() < usize::MAX {
                old(self).spec_cnt_received() + 1
            } else {
                old(self).spec_cnt_received()
            },
            final(self).resolved_count() == count_true(final(self).known_view()),
            forall|i: int|
                0 <= i < old(self).spec_cnt_chunks() && old(self).known_view()[i] ==> #[trigger] final(self).chunks_view()[i]
                    == old(self).chunks_view()[i],
            resolution_step(
                old(self).known_view(),
                droplet_indices(drop.droptype, old(self).spec_cnt_chunks()),
                final(self).known_view(),
            ),
            forall|c: Seq<Seq<u8>>|
                old(self).consistent(c) && droplet_matches(
                    drop.droptype,
                    drop.data@,
                    c,
                    old(self).spec_cnt_chunks(),
                    old(self).spec_blocksize(),
                ) ==> #[trigger] final(self).consistent(c),
            res is Finished <==> forall|i: int| 0 <= i < final(self).spec_cnt_chunks() ==> #[trigger] final(self).known_view()[i],
            res is Finished ==> res->Finished_0@ == assemble(
                final(self).chunks_view(),
                final(self).spec_blocksize(),
                final(self).spec_total_length(),
            ),
            match res {
                CatchResult::Finished(_, st) => {
                    &&& st.cnt_chunks == final(self).spec_cnt_chunks()
                    &&& st.resolved_chunks == final(self).resolved_count()
                    &&& st.cnt_droplets == final(self).spec_cnt_received()
                },
                CatchResult::Missing(st) => {
                    &&& st.cnt_chunks == final(self).spec_cnt_chunks()
                    &&& st.resolved_chunks == final(self).resolved_count()
                    &&& st.cnt_droplets == final(self).spec_cnt_received()
                },
            },
    {
        let ghost s0 = *self;
        let ghost b = self.blocksize as nat;
        let k = self.cnt_chunks;
        proof {
            lemma_chunk_of_byte(self.total_length as nat, b, 0);
        }
        let idxs: Vec<usize> = match drop.droptype {
            DropType::Seeded(seed, degree) => get_sample_from_rng_by_seed(seed, k, degree),
            DropType::Edges(i) => {
                let mut v: Vec<usize> = Vec::new();
                v.push(i);
                proof {
                    assert(v@ =~= seq![i]);
                }
                v
            },
        };
        let mut payload = drop.data;
        payload.truncate(self.blocksize);
        if self.cnt_received < usize::MAX {
            self.cnt_received = self.cnt_received + 1;
        }
        let ghost s1 = *self;
        proof {
            assert forall|c: Seq<Seq<u8>>| s0.consistent(c) implies #[trigger] s1.consistent(c) by {}
        }
        let ghost pa = payload@;
        let active = self.reduce(&idxs, &mut payload);
        let ghost aset = active_set(idxs@, self.known@);
        proof {
            assert(self.known@ == s0.known@);
            assert(idxs@ == droplet_indices(drop.droptype, k));
        }
        let ghost h0 = self.history@;
        let ghost d = idxs@;
        let ghost j = h0.len() as int;
        let ghost k0 = self.known@;
        let ghost home0 = self.home@;
        let ghost origin0 = self.origin@;
        proof {
            lemma_below_push(h0, d, k0);
            assert(h0.push(d)[j] == d);
        }
        let ghost s_before = *self;
        self.history = Ghost(h0.push(d));
        proof {
            lemma_consistent_frame(s_before, *self);
            lemma_consistent_frame(s1, s_before);
        }
        if active.len() == 1 {
            let a = active[0];
            proof {
                assert(active@.contains(a));
                assert(aset.contains(a));
                assert(aset =~= set![a]) by {
                    assert forall|x: usize| aset.contains(x) implies x == a by {
                        assert(active@.contains(x));
                        let t = choose|t: int| 0 <= t < active@.len() && active@[t] == x;
                    }
                }
                assert forall|a2: usize| #[trigger] peels(idxs@, s0.known@, a2) implies a2 == a by {
                    assert(set![a2].contains(a2));
                }
            }
            let ghost s2 = *self;
            proof {
                lemma_least_step(h0.push(d), k0, j, a);
            }
            self.resolve(a, payload);
            let ghost s_res = *self;
            self.home = Ghost(home0.push(-1));
            let ghost s3 = *self;
            proof {
                lemma_consistent_frame(s_res, s3);
                assert forall|x: usize| #[trigger] odd_in(d, x) implies x < self.known@.len() && self.known@[x as int] by {
                    lemma_odd_below(d, x, k0.len());
                    if !k0[x as int] {
                        assert(aset.contains(x));
                    }
                }
                assert forall|x: int| 0 <= x < k0.len() && #[trigger] k0[x] implies self.known@[x] by {}
                lemma_linked_settled(self.pending@, k0, self.known@, h0, d, origin0, home0);
                assert forall|p: int, u: int|
                    0 <= p < self.pending@.len() && 0 <= u < self.pending@[p].edges_idx@.len()
                    implies !self.known@[#[trigger] self.pending@[p].edges_idx@[u] as int]
                        || seq![a].contains(self.pending@[p].edges_idx@[u]) by {
                    let x = self.pending@[p].edges_idx@[u];
                    assert(s2.pending@[p].edges_idx@[u] == x);
                    if x == a {
                        assert(seq![a][0] == a);
                    }
                }
            }
            self.cascade(a);
            proof {
                assert forall|c: Seq<Seq<u8>>|
                    s0.consistent(c) && droplet_matches(drop.droptype, drop.data@, c, k, b) implies
                    #[trigger] self.consistent(c) by {
                    assert(pa =~= drop.data@.take(b as int));
                    assert(s1.consistent(c));
                    assert(xor_of(c, active@, b) == payload@);
                    assert(active@ =~= seq![a]);
                    lemma_xor_of_single(c, a, b);
                    assert(s2.consistent(c));
                    assert(s_res.consistent(c));
                    assert(s3.consistent(c));
                }
                assert(peels(idxs@, s0.known@, a));
                assert(self.known@[a as int]);
                assert(resolution_step(s0.known@, idxs@, self.known@));
                if s0.nothing_pending() && drop.droptype is Edges {
                    lemma_single_active(k0, drop.droptype->Edges_0);
                    assert(a == drop.droptype->Edges_0);
                    assert(s3.pending@ == s0.pending@);
                    assert(s3.nothing_pending());
                    assert(self.known@ == k0.update(a as int, true));
                }
            }
        } else {
            proof {
                assert forall|a2: usize| !#[trigger] peels(idxs@, s0.known@, a2) by {
                    if peels(idxs@, s0.known@, a2) {
                        assert(aset.contains(a2));
                        if active@.len() == 0 {
                            assert(active@.contains(a2));
                        } else {
                            assert(aset.contains(active@[0]));
                            assert(aset.contains(active@[1]));
                        }
                    }
                }
            }
            if active.len() >= 2 {
                proof {
                    assert forall|u: int| 0 <= u < active@.len() implies !self.known@[#[trigger] active@[u] as int] by {
                        assert(active@.contains(active@[u]));
                        assert(aset.contains(active@[u]));
                    }
                }
                proof {
                    if s0.nothing_pending() && drop.droptype is Edges {
                        lemma_single_active(k0, drop.droptype->Edges_0);
                        assert(aset.contains(active@[0]));
                        assert(aset.contains(active@[1]));
                    }
                }
                let ghost pend0 = self.pending@;
                let ghost act = active@;
                let ghost s_pre = *self;
                self.store(active, payload);
                let ghost s_st = *self;
                proof {
                    assert forall|c: Seq<Seq<u8>>|
                        s0.consistent(c) && droplet_matches(drop.droptype, drop.data@, c, k, b) implies
                        #[trigger] s_st.consistent(c) by {
                        assert(pa =~= drop.data@.take(b as int));
                        assert(s1.consistent(c));
                        assert(s_pre.consistent(c));
                    }
                }
                self.origin = Ghost(origin0.push(j));
                self.home = Ghost(home0.push(pend0.len() as int));
                proof {
                    assert forall|u: int| 0 <= u < act.len() implies odd_in(d, #[trigger] act[u]) by {
                        assert(act.contains(act[u]));
                        assert(aset.contains(act[u]));
                    }
                    assert forall|x: usize| #[trigger] odd_in(d, x) && !k0[x as int] implies act.contains(x) by {
                        lemma_odd_below(d, x, k0.len());
                        assert(aset.contains(x));
                    }
                    lemma_linked_store(pend0, self.pending@, k0, h0, d, origin0, home0);
                    lemma_consistent_frame(s_st, *self);
                }
            } else {
                let ghost s_pre = *self;
                self.home = Ghost(home0.push(-1));
                proof {
                    lemma_consistent_frame(s_pre, *self);
                    assert forall|x: usize| #[trigger] odd_in(d, x) implies x < k0.len() && k0[x as int] by {
                        lemma_odd_below(d, x, k0.len());
                        if !k0[x as int] {
                            assert(aset.contains(x));
                            assert(active@.contains(x));
                        }
                    }
                    assert forall|x: int| 0 <= x < k0.len() && #[trigger] k0[x] implies k0[x] by {}
                    lemma_linked_settled(self.pending@, k0, k0, h0, d, origin0, home0);
                    if s0.nothing_pending() && drop.droptype is Edges {
                        let i = drop.droptype->Edges_0;
                        lemma_single_active(k0, i);
                        if !k0[i as int] {
                            assert(aset.contains(i));
                            assert(active@.contains(i));
                        }
                        assert(k0.update(i as int, true) =~= k0);
                        assert(self.pending@ == s0.pending@);
                    }
                }
            }
            proof {
                assert forall|c: Seq<Seq<u8>>|
                    s0.consistent(c) && droplet_matches(drop.droptype, drop.data@, c, k, b) implies
                    #[trigger] self.consistent(c) by {
                    assert(pa =~= drop.data@.take(b as int));
                    assert(s1.consistent(c));
                }
                assert(self.known@ == s0.known@);
                assert(resolution_step(s0.known@, idxs@, self.known@));
            }
        }
        proof {
            lemma_count_true_full(self.known@);
            lemma_closed_when_reduced(self.pending@, self.known@, self.history@, self.origin@, self.home@);
        }
        let st = Statistics {
            cnt_droplets: self.cnt_received,
            cnt_chunks: self.cnt_chunks,
            resolved_chunks: self.resolved,
        };
        if self.resolved == self.cnt_chunks {
            proof {
                assert(self.known@.len() == self.cnt_chunks);
                assert(forall|i: int| 0 <= i < self.cnt_chunks ==> #[trigger] self.known@[i]);
            }
            let m = self.message();
            proof {
                assert(forall|i: int| 0 <= i < self.spec_cnt_chunks() ==> #[trigger] self.known_view()[i]);
                assert(m@ == assemble(self.chunks_view(), self.spec_blocksize(), self.spec_total_length()));
                assert(st.resolved_chunks == self.resolved_count());
                assert(st.cnt_droplets == self.spec_cnt_received());
            }
            let r = CatchResult::Finished(m, st);
            proof {
                assert(r->Finished_0@ == assemble(self.chunks_view(), self.spec_blocksize(), self.spec_total_length()));
            }
            r
        } else {
            proof {
                assert(!(forall|i: int| 0 <= i < self.known@.len() ==> #[trigger] self.known@[i]));
                let i0 = choose|i: int| 0 <= i < self.known@.len() && !self.known@[i];
                assert(!self.known_view()[i0]);
                assert(!(forall|i: int| 0 <= i < self.spec_cnt_chunks() ==> #[trigger] self.known_view()[i]));
            }
            CatchResult::Missing(st)
        }
    }

    /// Marks chunk `a` resolved, with content `data`.
    fn resolve(&mut self, a: usize, data: Vec<u8>)
        requires
            old(self).wf(),
            a < old(self).cnt_chunks,
            !old(self).known@[a as int],
            data@.len() == old(self).blocksize,
        ensures
            final(self).wf(),
            final(self).known@ == old(self).known@.update(a as int, true),
            final(self).chunks@ == old(self).chunks@.update(a as int, data),
            final(self).resolved == old(self).resolved + 1,
            final(self).total_length == old(self).total_length,
            final(self).blocksize == old(self).blocksize,
            final(self).cnt_chunks == old(self).cnt_chunks,
            final(self).cnt_received == old(self).cnt_received,
            final(self).pending@ == old(self).pending@,
            final(self).edges@ == old(self).edges@,
            final(self).history == old(self).history,
            final(self).origin == old(self).origin,
            final(self).home == old(self).home,
            forall|c: Seq<Seq<u8>>|
                old(self).consistent(c) && data@ == c[a as int] ==> #[trigger] final(self).consistent(c),
    {
        proof {
            lemma_count_true_set(self.known@, a as int);
            lemma_count_true_bound(self.known@.update(a as int, true));
        }
        self.chunks[a] = data;
        self.known[a] = true;
        self.resolved = self.resolved + 1;
    }

    /// Keeps a droplet that depends on the chunks `active`, with payload `payload`.
    fn store(&mut self, active: Vec<usize>, payload: Vec<u8>)
        requires
            old(self).wf(),
            indices_below(active@, old(self).cnt_chunks as nat),
            payload@.len() == old(self).blocksize,
            old(self).reduced(),
            active@.no_duplicates(),
            active@.len() >= 2,
            forall|u: int| 0 <= u < active@.len() ==> !old(self).known@[#[trigger] active@[u] as int],
        ensures
            final(self).wf(),
            final(self).reduced(),
            final(self).known@ == old(self).known@,
            final(self).chunks@ == old(self).chunks@,
            final(self).resolved == old(self).resolved,
            final(self).total_length == old(self).total_length,
            final(self).blocksize == old(self).blocksize,
            final(self).cnt_chunks == old(self).cnt_chunks,
            final(self).cnt_received == old(self).cnt_received,
            final(self).pending@.len() == old(self).pending@.len() + 1,
            forall|p: int| 0 <= p < old(self).pending@.len() ==> #[trigger] final(self).pending@[p] == old(self).pending@[p],
            final(self).pending@[old(self).pending@.len() as int].edges_idx@ == active@,
            final(self).history == old(self).history,
            final(self).origin == old(self).origin,
            final(self).home == old(self).home,
            forall|c: Seq<Seq<u8>>|
                old(self).consistent(c) && payload@ == xor_of(c, active@, old(self).blocksize as nat)
                    ==> #[trigger] final(self).consistent(c),
    {
        let pid = self.pending.len();
        let n = active.len();
        let mut t: usize = 0;
        while t < n
            invariant
                old(self).wf(),
                n == active@.len(),
                indices_below(active@, self.cnt_chunks as nat),
                t <= n,
                self.pending@ == old(self).pending@,
                pid == self.pending@.len(),
                self.edges@.len() == self.cnt_chunks,
                self.known@ == old(self).known@,
                self.chunks@ == old(self).chunks@,
                self.resolved == old(self).resolved,
                self.total_length == old(self).total_length,
                self.blocksize == old(self).blocksize,
                self.cnt_chunks == old(self).cnt_chunks,
                self.cnt_received == old(self).cnt_received,
                self.history == old(self).history,
                self.origin == old(self).origin,
                self.home == old(self).home,
                forall|i: int, u: int|
                    0 <= i < self.cnt_chunks && 0 <= u < self.edges@[i]@.len() ==> #[trigger] self.edges@[i]@[u]
                        <= pid,
                forall|i: int, q: usize|
                    0 <= i < self.cnt_chunks && #[trigger] old(self).edges@[i]@.contains(q) ==> self.edges@[i]@.contains(q),
                forall|u: int| 0 <= u < t ==> self.edges@[#[trigger] active@[u] as int]@.contains(pid),
            decreases n - t,
        {
            let x = active[t];
            let ghost e0 = self.edges@;
            self.edges[x].push(pid);
            proof {
                assert(self.edges@[x as int]@ == e0[x as int]@.push(pid));
                assert(self.edges@[x as int]@[e0[x as int]@.len() as int] == pid);
                assert forall|i: int, q: usize|
                    0 <= i < self.cnt_chunks && #[trigger] old(self).edges@[i]@.contains(q) implies self.edges@[i]@.contains(q) by {
                    assert(e0[i]@.contains(q));
                    if i == x {
                        let j = choose|j: int| 0 <= j < e0[i]@.len() && e0[i]@[j] == q;
                        assert(self.edges@[i]@[j] == q);
                    }
                }
                assert forall|u: int| 0 <= u < t + 1 implies self.edges@[#[trigger] active@[u] as int]@.contains(pid) by {
                    if u < t {
                        let y = active@[u] as int;
                        assert(e0[y]@.contains(pid));
                        if y == x {
                            let j = choose|j: int| 0 <= j < e0[y]@.len() && e0[y]@[j] == pid;
                            assert(self.edges@[y]@[j] == pid);
                        }
                    }
                }
            }
            t = t + 1;
        }
        let ghost pend0 = self.pending@;
        self.pending.push(RxDroplet { edges_idx: active, data: payload });
        proof {
            assert forall|p: int, u: int|
                0 <= p < self.pending@.len() && 0 <= u < self.pending@[p].edges_idx@.len()
                implies (!self.known@[#[trigger] self.pending@[p].edges_idx@[u] as int]
                    || Seq::<usize>::empty().contains(self.pending@[p].edges_idx@[u])) && (if self.pending@[p].edges_idx@[u] as int == -1 {
                    Seq::<usize>::empty().contains(p as usize)
                } else {
                    self.edges@[self.pending@[p].edges_idx@[u] as int]@.contains(p as usize)
                }) by {
                if p < pend0.len() {
                    assert(self.pending@[p] == pend0[p]);
                    assert(old(self).pending@[p].edges_idx@[u] == self.pending@[p].edges_idx@[u]);
                    assert(indices_below(pend0[p].edges_idx@, self.cnt_chunks as nat));
                } else {
                    assert(self.pending@[p].edges_idx@ == active@);
                }
            }
            assert forall|p: int|
                0 <= p < self.pending@.len() && (#[trigger] self.pending@[p]).edges_idx@.len() > 0
                implies self.pending@[p].edges_idx@.no_duplicates() && self.pending@[p].edges_idx@.len() >= 2 by {
                if p < pend0.len() {
                    assert(self.pending@[p] == pend0[p]);
                }
            }
        }
    }

    /// Propagates the resolution of chunk `first`: every pending droplet that
    /// depends on a newly resolved chunk has it XORed out, and one left with a
    /// single unknown chunk resolves that chunk in turn. A work list, not
    /// recursion, carries the newly resolved chunks.
    fn cascade(&mut self, first: usize)
        requires
            old(self).wf(),
            first < old(self).cnt_chunks,
            old(self).known@[first as int],
            live_distinct(old(self).pending@),
            unknown_or_waiting(old(self).pending@, old(self).known@, seq![first]),
            indexed_except(old(self).pending@, old(self).edges@, -1, Seq::empty()),
            linked(old(self).pending@, old(self).known@, old(self).history@, old(self).origin@, old(self).home@),
            below_closed(old(self).history@, old(self).known@),
        ensures
            final(self).wf(),
            final(self).reduced(),
            linked(final(self).pending@, final(self).known@, final(self).history@, final(self).origin@, final(self).home@),
            below_closed(final(self).history@, final(self).known@),
            final(self).history == old(self).history,
            final(self).origin == old(self).origin,
            final(self).home == old(self).home,
            final(self).known@.len() == old(self).known@.len(),
            forall|i: int| 0 <= i < old(self).cnt_chunks && old(self).known@[i] ==> #[trigger] final(self).known@[i],
            forall|i: int|
                0 <= i < old(self).cnt_chunks && old(self).known@[i] ==> #[trigger] final(self).chunks@[i] == old(self).chunks@[i],
            final(self).total_length == old(self).total_length,
            final(self).blocksize == old(self).blocksize,
            final(self).cnt_chunks == old(self).cnt_chunks,
            final(self).cnt_received == old(self).cnt_received,
            forall|c: Seq<Seq<u8>>| old(self).consistent(c) ==> #[trigger] final(self).consistent(c),
            old(self).nothing_pending() ==> final(self).known@ == old(self).known@ && final(self).pending@
                == old(self).pending@,
    {
        let ghost b = self.blocksize as nat;
        let mut queue: Vec<usize> = Vec::new();
        queue.push(first);
        while queue.len() > 0
            invariant
                self.wf(),
                b == self.blocksize,
                self.known@.len() == old(self).known@.len(),
                forall|i: int| 0 <= i < old(self).cnt_chunks && old(self).known@[i] ==> #[trigger] self.known@[i],
                forall|i: int|
                    0 <= i < old(self).cnt_chunks && old(self).known@[i] ==> #[trigger] self.chunks@[i] == old(self).chunks@[i],
                self.total_length == old(self).total_length,
                self.blocksize == old(self).blocksize,
                self.cnt_chunks == old(self).cnt_chunks,
                self.cnt_received == old(self).cnt_received,
                forall|q: int| 0 <= q < queue@.len() ==> #[trigger] queue@[q] < self.cnt_chunks,
                forall|q: int| 0 <= q < queue@.len() ==> self.known@[#[trigger] queue@[q] as int],
                forall|c: Seq<Seq<u8>>| old(self).consistent(c) ==> #[trigger] self.consistent(c),
                queue@.no_duplicates(),
                live_distinct(self.pending@),
                unknown_or_waiting(self.pending@, self.known@, queue@),
                indexed_except(self.pending@, self.edges@, -1, Seq::empty()),
                linked(self.pending@, self.known@, self.history@, self.origin@, self.home@),
                below_closed(self.history@, self.known@),
                self.history == old(self).history,
                self.origin == old(self).origin,
                self.home == old(self).home,
                old(self).nothing_pending() ==> self.known@ == old(self).known@ && self.pending@ == old(self).pending@,
            decreases 2 * (self.cnt_chunks - self.resolved) + queue@.len(),
        {
            let ghost m0 = 2 * (self.cnt_chunks - self.resolved) + queue@.len();
            let ghost q0 = queue@;
            let i = queue.pop().unwrap();
            let mut list: Vec<usize> = Vec::new();
            let ghost s_pop = *self;
            std::mem::swap(&mut self.edges[i], &mut list);
            proof {
                assert(queue@.push(i) == q0);
                assert(!queue@.contains(i)) by {
                    if queue@.contains(i) {
                        let u = choose|u: int| 0 <= u < queue@.len() && queue@[u] == i;
                        assert(q0[u] == q0[q0.len() - 1]);
                    }
                }
                assert(list@.subrange(0, list@.len() as int) =~= list@);
                assert forall|p: int, u: int|
                    0 <= p < self.pending@.len() && 0 <= u < self.pending@[p].edges_idx@.len()
                    implies (if #[trigger] self.pending@[p].edges_idx@[u] as int == i {
                        list@.contains(p as usize)
                    } else {
                        self.edges@[self.pending@[p].edges_idx@[u] as int]@.contains(p as usize)
                    }) by {
                    assert(s_pop.pending@[p].edges_idx@[u] == self.pending@[p].edges_idx@[u]);
                }
                assert(indexed_except(self.pending@, self.edges@, i as int, list@.subrange(0, list@.len() as int)));
                assert forall|c: Seq<Seq<u8>>| old(self).consistent(c) implies #[trigger] self.consistent(c) by {
                    assert(s_pop.consistent(c));
                }
            }
            let ghost np = self.pending@.len();
            let mut t: usize = 0;
            while t < list.len()
                invariant
                    self.wf(),
                    b == self.blocksize,
                    i < self.cnt_chunks,
                    self.known@[i as int],
                    np == self.pending@.len(),
                    t <= list@.len(),
                    forall|u: int| 0 <= u < list@.len() ==> #[trigger] list@[u] < np,
                    self.known@.len() == old(self).known@.len(),
                    forall|j: int| 0 <= j < old(self).cnt_chunks && old(self).known@[j] ==> #[trigger] self.known@[j],
                    forall|j: int|
                        0 <= j < old(self).cnt_chunks && old(self).known@[j] ==> #[trigger] self.chunks@[j] == old(self).chunks@[j],
                    self.total_length == old(self).total_length,
                    self.blocksize == old(self).blocksize,
                    self.cnt_chunks == old(self).cnt_chunks,
                    self.cnt_received == old(self).cnt_received,
                    forall|q: int| 0 <= q < queue@.len() ==> #[trigger] queue@[q] < self.cnt_chunks,
                    forall|q: int| 0 <= q < queue@.len() ==> self.known@[#[trigger] queue@[q] as int],
                    forall|c: Seq<Seq<u8>>| old(self).consistent(c) ==> #[trigger] self.consistent(c),
                    2 * (self.cnt_chunks - self.resolved) + queue@.len() < m0,
                    queue@.no_duplicates(),
                    !queue@.contains(i),
                    live_distinct(self.pending@),
                    unknown_or_waiting(self.pending@, self.known@, queue@.push(i)),
                    indexed_except(self.pending@, self.edges@, i as int, list@.subrange(t as int, list@.len() as int)),
                    linked(self.pending@, self.known@, self.history@, self.origin@, self.home@),
                    below_closed(self.history@, self.known@),
                    self.history == old(self).history,
                    self.origin == old(self).origin,
                    self.home == old(self).home,
                    old(self).nothing_pending() ==> self.known@ == old(self).known@ && self.pending@ == old(self).pending@,
                decreases list@.len() - t,
            {
                let pid = list[t];
                let ghost st = *self;
                let ghost qt = queue@;
                match position_of(&self.pending[pid].edges_idx, i) {
                    Some(pos) => {
                        proof {
                            if old(self).nothing_pending() {
                                assert(old(self).pending@[pid as int].edges_idx@.len() == 0);
                            }
                        }
                        let ghost s0 = *self;
                        let ghost e0 = self.pending@[pid as int].edges_idx@;
                        self.pending[pid].edges_idx.remove(pos);
                        xor_into(&mut self.pending[pid].data, &self.chunks[i]);
                        proof {
                            assert(self.pending@[pid as int].edges_idx@ == e0.remove(pos as int));
                            assert forall|c: Seq<Seq<u8>>| old(self).consistent(c) implies #[trigger] self.consistent(c) by {
                                assert(s0.consistent(c));
                                assert(s0.pending@[pid as int].edges_idx@.len() > 0);
                                assert(indices_below(e0, c.len()));
                                lemma_xor_of_remove(c, e0, pos as int, b);
                                assert(indices_below(e0.remove(pos as int), c.len()));
                                lemma_xor_of_len(c, e0.remove(pos as int), b);
                                lemma_bxor_cancel(xor_of(c, e0.remove(pos as int), b), c[i as int]);
                                assert forall|p: int|
                                    0 <= p < self.pending@.len() && (#[trigger] self.pending@[p]).edges_idx@.len() > 0
                                        implies self.pending@[p].data@ == xor_of(c, self.pending@[p].edges_idx@, b) by {
                                    if p != pid {
                                        assert(self.pending@[p] == s0.pending@[p]);
                                    }
                                }
                            }
                        }
                        if self.pending[pid].edges_idx.len() == 1 {
                            let a = self.pending[pid].edges_idx[0];
                            let ghost s1 = *self;
                            let ghost e1 = self.pending@[pid as int].edges_idx@;
                            let mut data: Vec<u8> = Vec::new();
                            std::mem::swap(&mut self.pending[pid].data, &mut data);
                            self.pending[pid].edges_idx.clear();
                            proof {
                                assert forall|c: Seq<Seq<u8>>| old(self).consistent(c) implies #[trigger] self.consistent(c)
                                    && data@ == c[a as int] by {
                                    assert(s1.consistent(c));
                                    assert(s1.pending@[pid as int].edges_idx@.len() > 0);
                                    assert(e1 =~= seq![a]);
                                    assert(e1.drop_last() =~= Seq::<usize>::empty());
                                    assert(a < c.len());
                                    assert(data@ == xor_of(c, e1, b));
                                    assert(xor_of(c, e1.drop_last(), b) == zeros(b));
                                    assert(xor_of(c, e1, b) == bxor(zeros(b), c[a as int]));
                                    lemma_bxor_comm(zeros(b), c[a as int]);
                                    lemma_bxor_zero(c[a as int]);
                                    assert forall|p: int|
                                        0 <= p < self.pending@.len() && (#[trigger] self.pending@[p]).edges_idx@.len() > 0
                                            implies self.pending@[p].data@ == xor_of(c, self.pending@[p].edges_idx@, b) by {
                                        assert(self.pending@[p] == s1.pending@[p]);
                                    }
                                }
                            }
                            let ghost s2 = *self;
                            proof {
                                assert(s1.known@ == st.known@);
                                lemma_linked_shrink(st.pending@, s1.pending@, st.known@, self.history@, self.origin@, self.home@, pid as int, pos as int, i);
                                assert(linked(s1.pending@, s1.known@, self.history@, self.origin@, self.home@));
                            }
                            let ghost hist = self.history@;
                            let ghost j0 = self.origin@[pid as int];
                            if !self.known[a] {
                                proof {
                                    assert(active_set(hist[j0], s2.known@) =~= set![a]) by {
                                        assert(s1.pending@[pid as int].edges_idx@[0] == a);
                                        assert forall|x: usize| #[trigger] active_set(hist[j0], s2.known@).contains(x) implies x == a by {
                                            assert(odd_in(hist[j0], x));
                                            assert(s1.pending@[pid as int].edges_idx@.contains(x));
                                        }
                                    }
                                    lemma_least_step(hist, s2.known@, j0, a);
                                }
                                self.resolve(a, data);
                                queue.push(a);
                                proof {
                                    assert forall|c: Seq<Seq<u8>>| old(self).consistent(c) implies #[trigger] self.consistent(c) by {
                                        assert(s2.consistent(c));
                                        assert(data@ == c[a as int]);
                                    }
                                }
                            }
                            proof {
                                assert(self.pending@ == s2.pending@);
                                assert(self.pending@[pid as int].edges_idx@.len() == 0);
                                assert(self.known@[a as int]);
                                assert(s1.pending@[pid as int].edges_idx@ =~= seq![a]);
                                lemma_linked_kill(s1.pending@, self.pending@, s1.known@, self.known@, hist, self.origin@, self.home@, pid as int, a);
                                assert forall|p: int| 0 <= p < self.pending@.len() && p != pid implies #[trigger] self.pending@[p]
                                    == st.pending@[p] by {}
                                assert forall|p: int, u: int|
                                    0 <= p < self.pending@.len() && 0 <= u < self.pending@[p].edges_idx@.len()
                                    implies (!self.known@[#[trigger] self.pending@[p].edges_idx@[u] as int]
                                        || queue@.push(i).contains(self.pending@[p].edges_idx@[u])) && (if self.pending@[p].edges_idx@[u] as int == i {
                                        list@.subrange(t + 1, list@.len() as int).contains(p as usize)
                                    } else {
                                        self.edges@[self.pending@[p].edges_idx@[u] as int]@.contains(p as usize)
                                    }) by {
                                    let x = self.pending@[p].edges_idx@[u];
                                    assert(p != pid);
                                    assert(st.pending@[p].edges_idx@[u] == x);
                                    if x == i {
                                        assert(list@[t as int] == pid);
                                        assert(self.pending.len() == self.pending@.len());
                                        assert((p as usize) as int == p);
                                        lemma_rest_contains(list@, t as int, p as usize);
                                    }
                                    if queue@.len() > qt.len() {
                                        assert(queue@ == qt.push(a));
                                        if x != a && qt.push(i).contains(x) {
                                            lemma_waiting_grows(qt, a, i, x);
                                        }
                                        if x == a {
                                            assert(queue@.push(i)[qt.len() as int] == a);
                                        }
                                    }
                                }
                                assert forall|p: int|
                                    0 <= p < self.pending@.len() && (#[trigger] self.pending@[p]).edges_idx@.len() > 0
                                    implies self.pending@[p].edges_idx@.no_duplicates() && self.pending@[p].edges_idx@.len() >= 2 by {
                                    assert(p != pid);
                                    assert(st.pending@[p] == self.pending@[p]);
                                }
                            }
                        } else {
                            proof {
                                lemma_linked_shrink(st.pending@, self.pending@, st.known@, self.history@, self.origin@, self.home@, pid as int, pos as int, i);
                                let e1 = self.pending@[pid as int].edges_idx@;
                                assert(e1 == e0.remove(pos as int));
                                assert(e1.len() >= 2);
                                assert forall|p: int| 0 <= p < self.pending@.len() && p != pid implies #[trigger] self.pending@[p]
                                    == st.pending@[p] by {}
                                assert forall|p: int, u: int|
                                    0 <= p < self.pending@.len() && 0 <= u < self.pending@[p].edges_idx@.len()
                                    implies (!self.known@[#[trigger] self.pending@[p].edges_idx@[u] as int]
                                        || queue@.push(i).contains(self.pending@[p].edges_idx@[u])) && (if self.pending@[p].edges_idx@[u] as int == i {
                                        list@.subrange(t + 1, list@.len() as int).contains(p as usize)
                                    } else {
                                        self.edges@[self.pending@[p].edges_idx@[u] as int]@.contains(p as usize)
                                    }) by {
                                    let x = self.pending@[p].edges_idx@[u];
                                    if p == pid {
                                        lemma_remove_entry(e0, pos as int, u);
                                        let u2 = if u < pos { u } else { u + 1 };
                                        assert(st.pending@[p].edges_idx@[u2] == x);
                                    } else {
                                        assert(st.pending@[p].edges_idx@[u] == x);
                                        if x == i {
                                            assert(list@[t as int] == pid);
                                        assert(self.pending.len() == self.pending@.len());
                                        assert((p as usize) as int == p);
                                        lemma_rest_contains(list@, t as int, p as usize);
                                        }
                                    }
                                }
                                assert forall|p: int|
                                    0 <= p < self.pending@.len() && (#[trigger] self.pending@[p]).edges_idx@.len() > 0
                                    implies self.pending@[p].edges_idx@.no_duplicates() && self.pending@[p].edges_idx@.len() >= 2 by {
                                    if p != pid {
                                        assert(st.pending@[p] == self.pending@[p]);
                                    } else {
                                        assert forall|u1: int, u2: int| 0 <= u1 < e1.len() && 0 <= u2 < e1.len() && u1 != u2
                                            implies e1[u1] != e1[u2] by {
                                            lemma_remove_entry(e0, pos as int, u1);
                                            lemma_remove_entry(e0, pos as int, u2);
                                        }
                                    }
                                }
                            }
                        }
                    },
                    None => {
                        proof {
                            assert forall|p: int, u: int|
                                0 <= p < self.pending@.len() && 0 <= u < self.pending@[p].edges_idx@.len()
                                implies (if #[trigger] self.pending@[p].edges_idx@[u] as int == i {
                                    list@.subrange(t + 1, list@.len() as int).contains(p as usize)
                                } else {
                                    self.edges@[self.pending@[p].edges_idx@[u] as int]@.contains(p as usize)
                                }) by {
                                if self.pending@[p].edges_idx@[u] == i {
                                    if p == pid {
                                        assert(self.pending@[pid as int].edges_idx@.contains(i));
                                    } else {
                                        assert(list@[t as int] == pid);
                                        assert(self.pending.len() == self.pending@.len());
                                        assert((p as usize) as int == p);
                                        lemma_rest_contains(list@, t as int, p as usize);
                                    }
                                }
                            }
                        }
                    },
                }
                t = t + 1;
            }
        }
    }

    /// The message laid out over the held chunks, cut to its length.
    fn message(&self) -> (m: Vec<u8>)
        requires
            self.wf(),
        ensures
            m@ == assemble(self.chunks_view(), self.blocksize as nat, self.total_length as nat),
    {
        let mut m: Vec<u8> = Vec::new();
        let mut p: usize = 0;
        while p < self.total_length
            invariant
                self.wf(),
                p <= self.total_length,
                m@ =~= assemble(self.chunks_view(), self.blocksize as nat, p as nat),
            decreases self.total_length - p,
        {
            proof {
                lemma_chunk_of_byte(self.total_length as nat, self.blocksize as nat, p as nat);
            }
            let ci = p / self.blocksize;
            let bi = p % self.blocksize;
            m.push(self.chunks[ci][bi]);
            p = p + 1;
        }
        m
    }

    /// Removes from `payload` every resolved chunk among `idxs` and every pair of
    /// equal indices; returns the unknown chunks that are left, each once.
    fn reduce(&self, idxs: &Vec<usize>, payload: &mut Vec<u8>) -> (active: Vec<usize>)
        requires
            self.wf(),
            indices_below(idxs@, self.cnt_chunks as nat),
            old(payload)@.len() == self.blocksize,
        ensures
            final(payload)@.len() == self.blocksize,
            active@.no_duplicates(),
            indices_below(active@, self.cnt_chunks as nat),
            forall|x: usize| active@.contains(x) <==> #[trigger] active_set(idxs@, self.known@).contains(x),
            forall|c: Seq<Seq<u8>>|
                self.consistent(c) && old(payload)@ == xor_of(c, idxs@, self.blocksize as nat)
                    ==> #[trigger] xor_of(c, active@, self.blocksize as nat) == final(payload)@,
    {
        let ghost b = self.blocksize as nat;
        let ghost pa = payload@;
        let n = idxs.len();
        let mut active: Vec<usize> = Vec::new();
        let mut j: usize = n;
        proof {
            assert(idxs@.take(n as int) =~= idxs@);
            assert(idxs@.subrange(n as int, n as int) =~= Seq::<usize>::empty());
            assert forall|c: Seq<Seq<u8>>|
                self.consistent(c) && pa == xor_of(c, idxs@, b) implies payload@ == bxor(
                xor_of(c, idxs@.take(n as int), b),
                xor_of(c, active@, b),
            ) by {
                lemma_xor_of_len(c, idxs@, b);
                lemma_bxor_zero(xor_of(c, idxs@, b));
            }
        }
        while j > 0
            invariant
                self.wf(),
                n == idxs@.len(),
                indices_below(idxs@, self.cnt_chunks as nat),
                j <= n,
                payload@.len() == b,
                b == self.blocksize,
                active@.no_duplicates(),
                indices_below(active@, self.cnt_chunks as nat),
                forall|x: usize| #![trigger occurrences(idxs@.subrange(j as int, n as int), x)]
                    active@.contains(x) <==> (x < self.cnt_chunks && !self.known@[x as int]
                        && occurrences(idxs@.subrange(j as int, n as int), x) % 2 == 1),
                forall|c: Seq<Seq<u8>>|
                    self.consistent(c) && pa == xor_of(c, idxs@, b) ==> #[trigger] bxor(
                        xor_of(c, idxs@.take(j as int), b),
                        xor_of(c, active@, b),
                    ) == payload@,
            decreases j,
        {
            let x = idxs[j - 1];
            let ghost a0 = active@;
            let ghost pay0 = payload@;
            proof {
                assert(forall|y: usize| a0.contains(y) ==> y < self.cnt_chunks);
                assert(forall|y: usize| a0.contains(y) ==> occurrences(idxs@.subrange(j as int, n as int), y) % 2 == 1);
                assert(forall|y: usize| #![trigger occurrences(idxs@.subrange(j as int, n as int), y)] y < self.cnt_chunks && !self.known@[y as int]
                        && occurrences(idxs@.subrange(j as int, n as int), y) % 2 == 1 ==> a0.contains(y));
                assert(idxs@.take(j as int).drop_last() =~= idxs@.take(j - 1));
                assert forall|y: usize| #[trigger]
                    occurrences(idxs@.subrange(j - 1, n as int), y) == (if x == y { 1nat } else { 0nat })
                        + occurrences(idxs@.subrange(j as int, n as int), y) by {
                    lemma_occurrences_front(idxs@, j as int, y);
                }
            }
            if self.known[x] {
                xor_into(payload, &self.chunks[x]);
                proof {
                    assert forall|c: Seq<Seq<u8>>|
                        self.consistent(c) && pa == xor_of(c, idxs@, b) implies #[trigger] bxor(
                            xor_of(c, idxs@.take(j - 1), b),
                            xor_of(c, active@, b),
                        ) == payload@ by {
                        assert(bxor(xor_of(c, idxs@.take(j as int), b), xor_of(c, a0, b)) == pay0);
                        assert(self.chunks@[x as int]@ == c[x as int]);
                        assert(indices_below(idxs@.take(j - 1), c.len()));
                        assert(indices_below(active@, c.len()));
                        lemma_xor_of_len(c, idxs@.take(j - 1), b);
                        lemma_xor_of_len(c, active@, b);
                        lemma_xor_step_known(
                            xor_of(c, idxs@.take(j - 1), b),
                            xor_of(c, active@, b),
                            c[x as int],
                        );
                    }
                }
            } else {
                match position_of(&active, x) {
                    Some(q) => {
                        active.remove(q);
                        proof {
                            assert forall|y: usize| #[trigger] active@.contains(y) <==> a0.contains(y) && y != x by {
                                if active@.contains(y) {
                                    let t = choose|t: int| 0 <= t < active@.len() && active@[t] == y;
                                    if t < q { assert(a0[t] == y); } else { assert(a0[t + 1] == y); }
                                }
                                if a0.contains(y) && y != x {
                                    let t = choose|t: int| 0 <= t < a0.len() && a0[t] == y;
                                    if t < q { assert(active@[t] == y); } else { assert(active@[t - 1] == y); }
                                }
                            }
                            assert forall|c: Seq<Seq<u8>>|
                                self.consistent(c) && pa == xor_of(c, idxs@, b) implies #[trigger] bxor(
                                    xor_of(c, idxs@.take(j - 1), b),
                                    xor_of(c, active@, b),
                                ) == payload@ by {
                                assert(bxor(xor_of(c, idxs@.take(j as int), b), xor_of(c, a0, b)) == pay0);
                                assert(indices_below(idxs@.take(j - 1), c.len()));
                                assert(indices_below(a0, c.len()));
                                assert(indices_below(active@, c.len()));
                                assert(a0.remove(q as int) == active@);
                                lemma_xor_of_remove(c, a0, q as int, b);
                                lemma_xor_of_len(c, idxs@.take(j - 1), b);
                                lemma_xor_of_len(c, active@, b);
                                lemma_xor_step_drop(
                                    xor_of(c, idxs@.take(j - 1), b),
                                    xor_of(c, active@, b),
                                    c[x as int],
                                );
                            }
                        }
                    },
                    None => {
                        active.push(x);
                        proof {
                            assert forall|y: usize| #[trigger] active@.contains(y) <==> a0.contains(y) || y == x by {
                                if active@.contains(y) {
                                    let t = choose|t: int| 0 <= t < active@.len() && active@[t] == y;
                                    if t < a0.len() { assert(a0[t] == y); }
                                }
                                if a0.contains(y) {
                                    let t = choose|t: int| 0 <= t < a0.len() && a0[t] == y;
                                    assert(active@[t] == y);
                                }
                                if y == x {
                                    assert(active@[a0.len() as int] == y);
                                }
                            }
                            assert forall|c: Seq<Seq<u8>>|
                                self.consistent(c) && pa == xor_of(c, idxs@, b) implies #[trigger] bxor(
                                    xor_of(c, idxs@.take(j - 1), b),
                                    xor_of(c, active@, b),
                                ) == payload@ by {
                                assert(bxor(xor_of(c, idxs@.take(j as int), b), xor_of(c, a0, b)) == pay0);
                                assert(indices_below(idxs@.take(j - 1), c.len()));
                                assert(indices_below(a0, c.len()));
                                lemma_xor_of_push(c, a0, x, b);
                                lemma_xor_of_len(c, idxs@.take(j - 1), b);
                                lemma_xor_of_len(c, a0, b);
                                lemma_xor_step_add(
                                    xor_of(c, idxs@.take(j - 1), b),
                                    xor_of(c, a0, b),
                                    c[x as int],
                                );
                            }
                        }
                    },
                }
            }
            proof {
                assert forall|y: usize|
                    active@.contains(y) <==> (y < self.cnt_chunks && !self.known@[y as int]
                        && #[trigger] occurrences(idxs@.subrange(j - 1, n as int), y) % 2 == 1) by {
                    assert(a0.contains(y) <==> (y < self.cnt_chunks && !self.known@[y as int]
                        && occurrences(idxs@.subrange(j as int, n as int), y) % 2 == 1));
                    assert(occurrences(idxs@.subrange(j - 1, n as int), y) == (if x == y { 1nat } else { 0nat })
                        + occurrences(idxs@.subrange(j as int, n as int), y));
                    if self.known@[x as int] {
                        assert(active@ == a0);
                    }
                }
            }
            j = j - 1;
        }
        proof {
            assert(idxs@.subrange(0, n as int) =~= idxs@);
            assert(idxs@.take(0) =~= Seq::<usize>::empty());
            assert forall|x: usize| active@.contains(x) <==> #[trigger] active_set(idxs@, self.known@).contains(x) by {
                assert(occurrences(idxs@.subrange(0, n as int), x) == occurrences(idxs@, x));
            }
            assert forall|c: Seq<Seq<u8>>|
                self.consistent(c) && pa == xor_of(c, idxs@, b) implies #[trigger] xor_of(c, active@, b)
                    == payload@ by {
                assert(indices_below(active@, c.len()));
                lemma_xor_of_len(c, active@, b);
                lemma_bxor_comm(zeros(b), xor_of(c, active@, b));
                lemma_bxor_zero(xor_of(c, active@, b));
            }
        }
        active
    }

}

/// A byte of the message lies in one of its chunks.
pub proof fn lemma_chunk_of_byte(len: nat, b: nat, p: nat)
    requires
        0 < b,
        p < len,
    ensures
        (p as int) / (b as int) < chunk_count(len, b),
        len <= chunk_count(len, b) * b,
{
    let k = chunk_count(len, b) as int;
    let bi = b as int;
    vstd::arithmetic::div_mod::lemma_fundamental_div_mod((len + b - 1) as int, bi);
    vstd::arithmetic::div_mod::lemma_fundamental_div_mod(p as int, bi);
    let q = p as int / bi;
    let r1 = (len + b - 1) as int % bi;
    let r2 = p as int % bi;
    assert(bi * k + r1 == len + b - 1);
    assert(len <= bi * k);
    vstd::arithmetic::mul::lemma_mul_is_commutative(bi, k);
    assert(q < k) by (nonlinear_arith)
        requires
            p as int == bi * q + r2,
            0 <= r2,
            p < len,
            len <= k * bi,
            bi > 0,
    ;
}

pub proof fn lemma_count_true_bound(s: Seq<bool>)
    ensures
        count_true(s) <= s.len(),
    decreases s.len(),
{
    if s.len() > 0 {
        lemma_count_true_bound(s.drop_last());
    }
}

/// Setting one unset entry adds one.
pub proof fn lemma_count_true_set(s: Seq<bool>, a: int)
    requires
        0 <= a < s.len(),
        !s[a],
    ensures
        count_true(s.update(a, true)) == count_true(s) + 1,
    decreases s.len(),
{
    let t = s.update(a, true);
    if a == s.len() - 1 {
        assert(t.drop_last() =~= s.drop_last());
    } else {
        assert(t.drop_last() =~= s.drop_last().update(a, true));
        lemma_count_true_set(s.drop_last(), a);
    }
}

/// All entries are set exactly when the count reaches the length.
pub proof fn lemma_count_true_full(s: Seq<bool>)
    ensures
        count_true(s) == s.len() <==> forall|i: int| 0 <= i < s.len() ==> #[trigger] s[i],
    decreases s.len(),
{
    if s.len() > 0 {
        let t = s.drop_last();
        lemma_count_true_full(t);
        lemma_count_true_bound(t);
        if count_true(s) == s.len() {
            assert forall|i: int| 0 <= i < s.len() implies #[trigger] s[i] by {
                if i < s.len() - 1 {
                    assert(t[i] == s[i]);
                }
            }
        }
        if forall|i: int| 0 <= i < s.len() ==> #[trigger] s[i] {
            assert(s[s.len() - 1]);
            assert forall|i: int| 0 <= i < t.len() implies #[trigger] t[i] by {
                assert(s[i]);
            }
        }
    }
}

pub proof fn lemma_xor_of_single(c: Seq<Seq<u8>>, a: usize, b: nat)
    requires
        chunks_sized(c, b),
        a < c.len(),
    ensures
        xor_of(c, seq![a], b) == c[a as int],
{
    assert(seq![a].drop_last() =~= Seq::<usize>::empty());
    assert(xor_of(c, Seq::<usize>::empty(), b) == zeros(b));
    assert(seq![a].last() == a);
    lemma_bxor_comm(zeros(b), c[a as int]);
    lemma_bxor_zero(c[a as int]);
}

proof fn lemma_rest_contains(s: Seq<usize>, t: int, x: usize)
    requires
        0 <= t < s.len(),
        s.subrange(t, s.len() as int).contains(x),
        s[t] != x,
    ensures
        s.subrange(t + 1, s.len() as int).contains(x),
{
    let j = choose|j: int| 0 <= j < s.len() - t && s.subrange(t, s.len() as int)[j] == x;
    assert(j != 0);
    assert(s.subrange(t + 1, s.len() as int)[j - 1] == x);
}

proof fn lemma_waiting_grows(q: Seq<usize>, a: usize, i: usize, x: usize)
    requires
        q.push(i).contains(x),
    ensures
        q.push(a).push(i).contains(x),
{
    let j = choose|j: int| 0 <= j < q.len() + 1 && q.push(i)[j] == x;
    if j == q.len() {
        assert(q.push(a).push(i)[q.len() as int + 1] == x);
    } else {
        assert(q.push(a).push(i)[j] == x);
    }
}

/// An entry of `e.remove(pos)`, and where it stood in `e`.
proof fn lemma_remove_entry(e: Seq<usize>, pos: int, u: int)
    requires
        0 <= pos < e.len(),
        0 <= u < e.len() - 1,
        e.no_duplicates(),
    ensures
        e.remove(pos)[u] == e[if u < pos { u } else { u + 1 }],
        e.remove(pos)[u] != e[pos],
{
}

proof fn lemma_occurs_contains(d: Seq<usize>, x: usize)
    requires
        occurrences(d, x) > 0,
    ensures
        d.contains(x),
    decreases d.len(),
{
    if d[0] != x {
        lemma_occurs_contains(d.drop_first(), x);
        let j = choose|j: int| 0 <= j < d.drop_first().len() && d.drop_first()[j] == x;
        assert(d[j + 1] == x);
    }
}

proof fn lemma_odd_below(d: Seq<usize>, x: usize, k: nat)
    requires
        indices_below(d, k),
        odd_in(d, x),
    ensures
        x < k,
{
    lemma_occurs_contains(d, x);
}

/// Resolving a chunk that a caught droplet peels keeps the resolved chunks within
/// every closed set.
proof fn lemma_least_step(hist: Seq<Seq<usize>>, known: Seq<bool>, j: int, a: usize)
    requires
        below_closed(hist, known),
        0 <= j < hist.len(),
        peels(hist[j], known, a),
    ensures
        below_closed(hist, known.update(a as int, true)),
{
    let d = hist[j];
    assert(active_set(d, known).contains(a));
    assert forall|t: Seq<bool>| t.len() == known.len() && #[trigger] closed_under(hist, t) implies included(
        known.update(a as int, true),
        t,
    ) by {
        assert(included(known, t));
        if !t[a as int] {
            assert(active_set(d, t) =~= set![a]) by {
                assert forall|x: usize| active_set(d, t).contains(x) implies x == a by {
                    if known[x as int] {
                        assert(t[x as int]);
                    }
                    assert(active_set(d, known).contains(x));
                }
            }
            assert(!peels(hist[j], t, a));
        }
    }
}

/// With the peeling done, no caught droplet peels anything.
proof fn lemma_closed_when_reduced(
    pending: Seq<RxDroplet>,
    known: Seq<bool>,
    hist: Seq<Seq<usize>>,
    origin: Seq<int>,
    home: Seq<int>,
)
    requires
        live_distinct(pending),
        unknown_or_waiting(pending, known, Seq::empty()),
        linked(pending, known, hist, origin, home),
    ensures
        closed_under(hist, known),
{
    assert forall|j: int, a: usize| 0 <= j < hist.len() implies !#[trigger] peels(hist[j], known, a) by {
        let d = hist[j];
        if peels(d, known, a) {
            assert(active_set(d, known).contains(a));
            if settled(d, known) {
                assert(odd_in(d, a));
            } else {
                let p = home[j];
                let e = pending[p].edges_idx@;
                assert(pending[p].edges_idx@.len() > 0);
                assert(e.len() >= 2 && e.no_duplicates());
                let x0 = pending[p].edges_idx@[0];
                let x1 = pending[p].edges_idx@[1];
                assert(odd_in(d, x0));
                assert(odd_in(d, x1));
                assert(!known[x0 as int]);
                assert(!known[x1 as int]);
                lemma_odd_below(d, x0, known.len());
                lemma_odd_below(d, x1, known.len());
                assert(active_set(d, known).contains(x0));
                assert(active_set(d, known).contains(x1));
                assert(set![a].contains(x0));
                assert(set![a].contains(x1));
            }
        }
    }
}

/// Taking a resolved chunk out of one pending entry keeps the links.
proof fn lemma_linked_shrink(
    pa: Seq<RxDroplet>,
    pb: Seq<RxDroplet>,
    known: Seq<bool>,
    hist: Seq<Seq<usize>>,
    origin: Seq<int>,
    home: Seq<int>,
    pid: int,
    pos: int,
    i: usize,
)
    requires
        linked(pa, known, hist, origin, home),
        live_distinct(pa),
        0 <= pid < pa.len(),
        pb.len() == pa.len(),
        forall|p: int| 0 <= p < pa.len() && p != pid ==> pb[p] == pa[p],
        0 <= pos < pa[pid].edges_idx@.len(),
        pa[pid].edges_idx@[pos] == i,
        known[i as int],
        pb[pid].edges_idx@ == pa[pid].edges_idx@.remove(pos),
    ensures
        linked(pb, known, hist, origin, home),
{
    let e = pa[pid].edges_idx@;
    assert forall|p: int, u: int|
        0 <= p < pb.len() && 0 <= u < pb[p].edges_idx@.len() implies odd_in(
        hist[origin[p]],
        #[trigger] pb[p].edges_idx@[u],
    ) by {
        if p == pid {
            lemma_remove_entry(e, pos, u);
            let u2 = if u < pos { u } else { u + 1 };
            assert(pa[p].edges_idx@[u2] == pb[p].edges_idx@[u]);
        } else {
            assert(pa[p].edges_idx@[u] == pb[p].edges_idx@[u]);
        }
    }
    assert forall|p: int, x: usize|
        0 <= p < pb.len() && pb[p].edges_idx@.len() > 0 && #[trigger] odd_in(hist[origin[p]], x) && !known[x as int]
        implies pb[p].edges_idx@.contains(x) by {
        if p == pid {
            assert(e.contains(x));
            let v = choose|v: int| 0 <= v < e.len() && e[v] == x;
            assert(v != pos);
            if v < pos {
                assert(pb[p].edges_idx@[v] == x);
            } else {
                assert(pb[p].edges_idx@[v - 1] == x);
            }
        } else {
            assert(pa[p] == pb[p]);
        }
    }
    assert forall|j: int|
        0 <= j < hist.len() implies settled(hist[j], known) || (0 <= #[trigger] home[j] < pb.len() && origin[home[j]] == j
            && pb[home[j]].edges_idx@.len() > 0) by {
        if !settled(hist[j], known) && home[j] != pid {
            assert(pa[home[j]] == pb[home[j]]);
        }
    }
}

/// Emptying a pending entry whose last chunk `a` is now resolved keeps the links.
proof fn lemma_linked_kill(
    pa: Seq<RxDroplet>,
    pb: Seq<RxDroplet>,
    k0: Seq<bool>,
    k1: Seq<bool>,
    hist: Seq<Seq<usize>>,
    origin: Seq<int>,
    home: Seq<int>,
    pid: int,
    a: usize,
)
    requires
        linked(pa, k0, hist, origin, home),
        0 <= pid < pa.len(),
        pb.len() == pa.len(),
        forall|p: int| 0 <= p < pa.len() && p != pid ==> pb[p] == pa[p],
        pa[pid].edges_idx@ == seq![a],
        pb[pid].edges_idx@.len() == 0,
        k1.len() == k0.len(),
        forall|x: int| 0 <= x < k0.len() && #[trigger] k0[x] ==> k1[x],
        k1[a as int],
    ensures
        linked(pb, k1, hist, origin, home),
{
    assert forall|p: int, u: int|
        0 <= p < pb.len() && 0 <= u < pb[p].edges_idx@.len() implies odd_in(
        hist[origin[p]],
        #[trigger] pb[p].edges_idx@[u],
    ) by {
        assert(p != pid);
        assert(pa[p].edges_idx@[u] == pb[p].edges_idx@[u]);
    }
    assert forall|p: int, x: usize|
        0 <= p < pb.len() && pb[p].edges_idx@.len() > 0 && #[trigger] odd_in(hist[origin[p]], x) && !k1[x as int]
        implies pb[p].edges_idx@.contains(x) by {
        assert(p != pid);
        assert(pa[p] == pb[p]);
        lemma_odd_below(hist[origin[p]], x, k0.len());
    }
    assert forall|j: int|
        0 <= j < hist.len() implies settled(hist[j], k1) || (0 <= #[trigger] home[j] < pb.len() && origin[home[j]] == j
            && pb[home[j]].edges_idx@.len() > 0) by {
        if settled(hist[j], k0) {
            assert forall|x: usize| #[trigger] odd_in(hist[j], x) implies x < k1.len() && k1[x as int] by {
                assert(k0[x as int]);
            }
        } else if home[j] == pid {
            assert forall|x: usize| #[trigger] odd_in(hist[j], x) implies x < k1.len() && k1[x as int] by {
                lemma_odd_below(hist[j], x, k0.len());
                if !k0[x as int] {
                    assert(pa[pid].edges_idx@.contains(x));
                    assert(x == a);
                }
            }
        } else {
            assert(pa[home[j]] == pb[home[j]]);
        }
    }
}

proof fn lemma_below_push(hist: Seq<Seq<usize>>, d: Seq<usize>, known: Seq<bool>)
    requires
        below_closed(hist, known),
    ensures
        below_closed(hist.push(d), known),
{
    assert forall|t: Seq<bool>| t.len() == known.len() && #[trigger] closed_under(hist.push(d), t) implies included(
        known,
        t,
    ) by {
        assert forall|j: int, a: usize| 0 <= j < hist.len() implies !#[trigger] peels(hist[j], t, a) by {
            assert(hist.push(d)[j] == hist[j]);
        }
        assert(closed_under(hist, t));
    }
}

/// A newly caught droplet that is settled joins the history without an entry.
proof fn lemma_linked_settled(
    pending: Seq<RxDroplet>,
    k0: Seq<bool>,
    k1: Seq<bool>,
    hist: Seq<Seq<usize>>,
    d: Seq<usize>,
    origin: Seq<int>,
    home: Seq<int>,
)
    requires
        linked(pending, k0, hist, origin, home),
        k1.len() == k0.len(),
        included(k0, k1),
        settled(d, k1),
        indices_below(d, k0.len()),
    ensures
        linked(pending, k1, hist.push(d), origin, home.push(-1)),
{
    let h1 = hist.push(d);
    assert forall|j: int| 0 <= j < h1.len() implies indices_below(#[trigger] h1[j], k1.len()) by {
        if j < hist.len() {
            assert(h1[j] == hist[j]);
        }
    }
    assert forall|p: int| 0 <= p < pending.len() implies 0 <= #[trigger] origin[p] < h1.len() by {}
    assert forall|p: int, u: int|
        0 <= p < pending.len() && 0 <= u < pending[p].edges_idx@.len() implies odd_in(
        h1[origin[p]],
        #[trigger] pending[p].edges_idx@[u],
    ) by {
        assert(h1[origin[p]] == hist[origin[p]]);
    }
    assert forall|p: int, x: usize|
        0 <= p < pending.len() && pending[p].edges_idx@.len() > 0 && #[trigger] odd_in(h1[origin[p]], x) && !k1[x as int]
        implies pending[p].edges_idx@.contains(x) by {
        assert(h1[origin[p]] == hist[origin[p]]);
        lemma_odd_below(hist[origin[p]], x, k0.len());
        assert(!k0[x as int]);
    }
    assert forall|j: int|
        0 <= j < h1.len() implies settled(h1[j], k1) || (0 <= #[trigger] home.push(-1)[j] < pending.len()
            && origin[home.push(-1)[j]] == j && pending[home.push(-1)[j]].edges_idx@.len() > 0) by {
        if j < hist.len() {
            assert(h1[j] == hist[j]);
            assert(home.push(-1)[j] == home[j]);
            if settled(hist[j], k0) {
                assert forall|x: usize| #[trigger] odd_in(h1[j], x) implies x < k1.len() && k1[x as int] by {
                    assert(k0[x as int]);
                }
            }
        }
    }
}

/// A newly caught droplet kept as a pending entry joins the history with it.
proof fn lemma_linked_store(
    pa: Seq<RxDroplet>,
    pb: Seq<RxDroplet>,
    known: Seq<bool>,
    hist: Seq<Seq<usize>>,
    d: Seq<usize>,
    origin: Seq<int>,
    home: Seq<int>,
)
    requires
        linked(pa, known, hist, origin, home),
        pb.len() == pa.len() + 1,
        forall|p: int| 0 <= p < pa.len() ==> pb[p] == pa[p],
        pb[pa.len() as int].edges_idx@.len() > 0,
        forall|u: int| 0 <= u < pb[pa.len() as int].edges_idx@.len() ==> odd_in(d, #[trigger] pb[pa.len() as int].edges_idx@[u]),
        forall|x: usize| #[trigger] odd_in(d, x) && !known[x as int] ==> pb[pa.len() as int].edges_idx@.contains(x),
        indices_below(d, known.len()),
    ensures
        linked(pb, known, hist.push(d), origin.push(hist.len() as int), home.push(pa.len() as int)),
{
    let h1 = hist.push(d);
    let o1 = origin.push(hist.len() as int);
    let m1 = home.push(pa.len() as int);
    assert forall|j: int| 0 <= j < h1.len() implies indices_below(#[trigger] h1[j], known.len()) by {
        if j < hist.len() {
            assert(h1[j] == hist[j]);
        }
    }
    assert forall|p: int| 0 <= p < pb.len() implies 0 <= #[trigger] o1[p] < h1.len() by {
        if p < pa.len() {
            assert(o1[p] == origin[p]);
        }
    }
    assert forall|p: int, u: int|
        0 <= p < pb.len() && 0 <= u < pb[p].edges_idx@.len() implies odd_in(
        h1[o1[p]],
        #[trigger] pb[p].edges_idx@[u],
    ) by {
        if p < pa.len() {
            assert(o1[p] == origin[p]);
            assert(h1[origin[p]] == hist[origin[p]]);
            assert(pa[p].edges_idx@[u] == pb[p].edges_idx@[u]);
        }
    }
    assert forall|p: int, x: usize|
        0 <= p < pb.len() && pb[p].edges_idx@.len() > 0 && #[trigger] odd_in(h1[o1[p]], x) && !known[x as int]
        implies pb[p].edges_idx@.contains(x) by {
        if p < pa.len() {
            assert(o1[p] == origin[p]);
            assert(h1[origin[p]] == hist[origin[p]]);
            assert(pa[p] == pb[p]);
        }
    }
    assert forall|j: int|
        0 <= j < h1.len() implies settled(h1[j], known) || (0 <= #[trigger] m1[j] < pb.len() && o1[m1[j]] == j
            && pb[m1[j]].edges_idx@.len() > 0) by {
        if j < hist.len() {
            assert(h1[j] == hist[j]);
            assert(m1[j] == home[j]);
            if !settled(hist[j], known) {
                assert(o1[home[j]] == origin[home[j]]);
                assert(pb[home[j]] == pa[home[j]]);
            }
        }
    }
}

/// Agreement with `c` depends on the chunks, the resolved flags and the pending
/// droplets alone.
proof fn lemma_consistent_frame(s: Decoder, t: Decoder)
    requires
        t.chunks@ == s.chunks@,
        t.known@ == s.known@,
        t.pending@ == s.pending@,
        t.cnt_chunks == s.cnt_chunks,
        t.blocksize == s.blocksize,
    ensures
        forall|c: Seq<Seq<u8>>| s.consistent(c) ==> #[trigger] t.consistent(c),
{
}

/// A droplet naming chunk `i` alone depends on `i` alone, while `i` is unknown.
proof fn lemma_single_active(known: Seq<bool>, i: usize)
    ensures
        forall|x: usize| #[trigger] active_set(seq![i], known).contains(x) ==> x == i,
        i < known.len() && !known[i as int] ==> active_set(seq![i], known).contains(i),
{
    assert forall|x: usize| #[trigger] occurrences(seq![i], x) == (if x == i { 1nat } else { 0nat }) by {
        assert(seq![i].drop_first() =~= Seq::<usize>::empty());
        assert(occurrences(Seq::<usize>::empty(), x) == 0);
        assert(seq![i][0] == i);
    }
}

/// Where `x` stands in `v`, if anywhere.
fn position_of(v: &Vec<usize>, x: usize) -> (r: Option<usize>)
    ensures
        match r {
            Some(q) => q < v@.len() && v@[q as int] == x,
            None => !v@.contains(x),
        },
{
    let mut q: usize = 0;
    while q < v.len()
        invariant
            q <= v@.len(),
            forall|t: int| 0 <= t < q ==> v@[t] != x,
        decreases v@.len() - q,
    {
        if v[q] == x {
            return Some(q);
        }
        q = q + 1;
    }
    None
}

proof fn lemma_xor_step_known(t: Seq<u8>, a: Seq<u8>, x: Seq<u8>)
    requires
        t.len() == a.len(),
        a.len() == x.len(),
    ensures
        bxor(bxor(bxor(t, x), a), x) == bxor(t, a),
{
    let t1 = bxor(t, x);
    lemma_bxor_assoc(t1, a, x);
    lemma_bxor_comm(a, x);
    lemma_bxor_assoc(t1, x, a);
    lemma_bxor_cancel(t, x);
}

proof fn lemma_xor_step_drop(t: Seq<u8>, a: Seq<u8>, x: Seq<u8>)
    requires
        t.len() == a.len(),
        a.len() == x.len(),
    ensures
        bxor(bxor(t, x), bxor(a, x)) == bxor(t, a),
{
    lemma_bxor_assoc(bxor(t, x), a, x);
    lemma_xor_step_known(t, a, x);
}

proof fn lemma_xor_step_add(t: Seq<u8>, a: Seq<u8>, x: Seq<u8>)
    requires
        t.len() == a.len(),
        a.len() == x.len(),
    ensures
        bxor(bxor(t, x), a) == bxor(t, bxor(a, x)),
{
    lemma_bxor_assoc(t, x, a);
    lemma_bxor_comm(x, a);
}

proof fn lemma_occurrences_front(s: Seq<usize>, j: int, x: usize)
    requires
        0 < j <= s.len(),
    ensures
        occurrences(s.subrange(j - 1, s.len() as int), x) == (if s[j - 1] == x { 1nat } else { 0nat })
            + occurrences(s.subrange(j, s.len() as int), x),
{
    assert(s.subrange(j - 1, s.len() as int).drop_first() =~= s.subrange(j, s.len() as int));
}

impl Decoder {
    /// The shape of a well-formed decoder.
    pub proof fn lemma_shape(&self)
        requires
            self.wf(),
        ensures
            self.spec_blocksize() > 0,
            self.spec_total_length() > 0,
            self.spec_cnt_chunks() == chunk_count(self.spec_total_length(), self.spec_blocksize()),
            self.known_view().len() == self.spec_cnt_chunks(),
            self.chunks_view().len() == self.spec_cnt_chunks(),
            self.resolved_count() == count_true(self.known_view()),
    {
    }

    /// A decoder that has resolved every chunk, and agrees with the chunks `c`,
    /// holds the message that `c` lays out.
    pub proof fn lemma_complete_holds(&self, c: Seq<Seq<u8>>)
        requires
            self.wf(),
            self.consistent(c),
            forall|i: int| 0 <= i < self.spec_cnt_chunks() ==> #[trigger] self.known_view()[i],
        ensures
            assemble(self.chunks_view(), self.spec_blocksize(), self.spec_total_length())
                == assemble(c, self.spec_blocksize(), self.spec_total_length()),
    {
        let b = self.blocksize as nat;
        let len = self.total_length as nat;
        assert forall|p: int| 0 <= p < len implies #[trigger] assemble(self.chunks_view(), b, len)[p] == assemble(
            c,
            b,
            len,
        )[p] by {
            lemma_chunk_of_byte(len, b, p as nat);
            let q = p / (b as int);
            assert(self.known_view()[q]);
            assert(self.known@[q]);
        }
        assert(assemble(self.chunks_view(), b, len) =~= assemble(c, b, len));
    }
}

/// Two decoders of the same message shape that agree with the same chunks `c`
/// and have resolved every chunk hold the same message, whatever droplets they
/// caught and in whatever order.
pub proof fn lemma_complete_decoders_agree(d1: Decoder, d2: Decoder, c: Seq<Seq<u8>>)
    requires
        d1.wf(),
        d2.wf(),
        d1.spec_total_length() == d2.spec_total_length(),
        d1.spec_blocksize() == d2.spec_blocksize(),
        d1.consistent(c),
        d2.consistent(c),
        forall|i: int| 0 <= i < d1.spec_cnt_chunks() ==> #[trigger] d1.known_view()[i],
        forall|i: int| 0 <= i < d2.spec_cnt_chunks() ==> #[trigger] d2.known_view()[i],
    ensures
        assemble(d1.chunks_view(), d1.spec_blocksize(), d1.spec_total_length()) == assemble(
            d2.chunks_view(),
            d2.spec_blocksize(),
            d2.spec_total_length(),
        ),
{
    d1.lemma_complete_holds(c);
    d2.lemma_complete_holds(c);
}

/// Order independence: two decoders that caught the same droplets, in whatever
/// order, have resolved the same chunks (`catch` keeps the resolved chunks the
/// least set closed under peeling by the droplets caught).
pub proof fn lemma_resolved_order_independent(
    d1: Seq<Seq<usize>>,
    d2: Seq<Seq<usize>>,
    k1: Seq<bool>,
    k2: Seq<bool>,
)
    requires
        d1.to_multiset() == d2.to_multiset(),
        least_closed(d1, k1),
        least_closed(d2, k2),
        k1.len() == k2.len(),
    ensures
        k1 == k2,
{
    d1.to_multiset_ensures();
    d2.to_multiset_ensures();
    assert forall|d: Seq<usize>| d1.contains(d) <==> d2.contains(d) by {
        d1.to_multiset_ensures();
        d2.to_multiset_ensures();
        assert(d1.to_multiset().count(d) == d2.to_multiset().count(d));
        assert(d1.contains(d) <==> d1.to_multiset().count(d) > 0);
        assert(d2.contains(d) <==> d2.to_multiset().count(d) > 0);
    }
    lemma_closed_same_droplets(d1, d2, k2);
    lemma_closed_same_droplets(d2, d1, k1);
    assert(included(k1, k2));
    assert(included(k2, k1));
    assert forall|x: int| 0 <= x < k1.len() implies k1[x] == k2[x] by {
        if k1[x] {
            assert(k2[x]);
        }
        if k2[x] {
            assert(k1[x]);
        }
    }
    assert(k1 =~= k2);
}

/// Order independence for decoders: two decoders of the same shape whose caught
/// droplets are the same, in whatever order they were caught, have resolved the
/// same chunks; when they also agree with one message's chunks `c` and have
/// resolved all of them, they hold the same message.
pub proof fn lemma_decoders_order_independent(a: Decoder, b: Decoder, c: Seq<Seq<u8>>)
    requires
        a.wf(),
        b.wf(),
        a.peeled(),
        b.peeled(),
        a.spec_total_length() == b.spec_total_length(),
        a.spec_blocksize() == b.spec_blocksize(),
        a.caught().to_multiset() == b.caught().to_multiset(),
    ensures
        a.known_view() == b.known_view(),
        a.resolved_count() == b.resolved_count(),
        a.consistent(c) && b.consistent(c) && all_resolved(a.known_view(), a.spec_cnt_chunks() as nat)
            ==> assemble(a.chunks_view(), a.spec_blocksize(), a.spec_total_length()) == assemble(
            b.chunks_view(),
            b.spec_blocksize(),
            b.spec_total_length(),
        ),
{
    a.lemma_shape();
    b.lemma_shape();
    lemma_resolved_order_independent(a.caught(), b.caught(), a.known_view(), b.known_view());
    if a.consistent(c) && b.consistent(c) && all_resolved(a.known_view(), a.spec_cnt_chunks() as nat) {
        assert forall|i: int| 0 <= i < a.spec_cnt_chunks() implies #[trigger] a.known_view()[i] by {}
        assert forall|i: int| 0 <= i < b.spec_cnt_chunks() implies #[trigger] b.known_view()[i] by {
            assert(a.known_view()[i]);
        }
        lemma_complete_decoders_agree(a, b, c);
    }
}

/// Closure under peeling depends only on which droplets there are.
proof fn lemma_closed_same_droplets(d1: Seq<Seq<usize>>, d2: Seq<Seq<usize>>, t: Seq<bool>)
    requires
        forall|d: Seq<usize>| d1.contains(d) ==> d2.contains(d),
        closed_under(d2, t),
    ensures
        closed_under(d1, t),
{
    assert forall|j: int, a: usize| 0 <= j < d1.len() implies !#[trigger] peels(d1[j], t, a) by {
        assert(d1.contains(d1[j]));
        let i = choose|i: int| 0 <= i < d2.len() && d2[i] == d1[j];
        assert(!peels(d2[i], t, a));
    }
}

/// The first `k` entries are all set.
pub open spec fn all_resolved(s: Seq<bool>, k: nat) -> bool {
    forall|x: int| 0 <= x < k ==> #[trigger] s[x]
}

/// The first `t` chunks resolved, the rest not.
pub open spec fn first_resolved(k: nat, t: nat) -> Seq<bool> {
    Seq::new(k, |x: int| x < t)
}

proof fn lemma_count_first(k: nat, t: nat)
    requires
        t <= k,
    ensures
        count_true(first_resolved(k, t)) == t,
    decreases k,
{
    if k > 0 {
        if t == k {
            assert(first_resolved(k, t).drop_last() =~= first_resolved((k - 1) as nat, (k - 1) as nat));
            lemma_count_first((k - 1) as nat, (k - 1) as nat);
        } else {
            assert(first_resolved(k, t).drop_last() =~= first_resolved((k - 1) as nat, t));
            lemma_count_first((k - 1) as nat, t);
        }
    }
}

/// Systematic round trip without loss: a fresh decoder over `k` chunks that
/// catches `Edges(0)`, `Edges(1)`, ... in turn (the first droplets of a
/// systematic encoder) has exactly the first `j` chunks, `j` of them, resolved
/// after `j` droplets, and so resolves every chunk at the `k`-th and not before.
pub proof fn lemma_systematic_run(known: Seq<Seq<bool>>, k: nat)
    requires
        1 <= known.len() <= k + 1,
        known[0] == first_resolved(k, 0),
        forall|t: int| 0 <= t < known.len() - 1 ==> #[trigger] known[t + 1] == known[t].update(t, true),
    ensures
        forall|t: int| 0 <= t < known.len() ==> #[trigger] known[t] == first_resolved(k, t as nat),
        forall|t: int| 0 <= t < known.len() ==> count_true(#[trigger] known[t]) == t,
        forall|t: int| 0 <= t < known.len() ==> (#[trigger] all_resolved(known[t], k) <==> t == k),
{
    assert forall|t: int| 0 <= t < known.len() implies #[trigger] known[t] == first_resolved(k, t as nat) by {
        lemma_systematic_step(known, k, t);
    }
    assert forall|t: int| 0 <= t < known.len() implies count_true(#[trigger] known[t]) == t by {
        lemma_count_first(k, t as nat);
    }
    assert forall|t: int| 0 <= t < known.len() implies (#[trigger] all_resolved(known[t], k) <==> t == k) by {
        if t < k {
            assert(!known[t][t]);
        }
    }
}

proof fn lemma_systematic_step(known: Seq<Seq<bool>>, k: nat, t: int)
    requires
        1 <= known.len() <= k + 1,
        known[0] == first_resolved(k, 0),
        forall|u: int| 0 <= u < known.len() - 1 ==> #[trigger] known[u + 1] == known[u].update(u, true),
        0 <= t < known.len(),
    ensures
        known[t] == first_resolved(k, t as nat),
    decreases t,
{
    if t > 0 {
        lemma_systematic_step(known, k, t - 1);
        let u = t - 1;
        assert(known[u + 1] == known[u].update(u, true));
        assert(known[t] =~= first_resolved(k, t as nat));
    }
}

/// Catching the same droplet a second time resolves nothing more than the first
/// catch did.
pub proof fn lemma_catch_twice(k0: Seq<bool>, k1: Seq<bool>, k2: Seq<bool>, idxs: Seq<usize>)
    requires
        resolution_step(k0, idxs, k1),
        resolution_step(k1, idxs, k2),
    ensures
        k2 == k1,
        count_true(k2) == count_true(k1),
{
    if exists|a: usize| #[trigger] peels(idxs, k0, a) {
        let a = choose|a: usize| #[trigger] peels(idxs, k0, a);
        assert(k1[a as int]);
        assert forall|a2: usize| !#[trigger] peels(idxs, k1, a2) by {
            if peels(idxs, k1, a2) {
                assert(active_set(idxs, k1).contains(a2));
                assert(active_set(idxs, k0).contains(a2));
                assert(set![a].contains(a2));
            }
        }
    } else {
        assert(k1 == k0);
    }
}

/// One of `drops` names chunk `i` alone.
pub open spec fn names_alone(drops: Seq<DropType>, i: usize) -> bool {
    exists|j: int| 0 <= j < drops.len() && #[trigger] drops[j] == DropType::Edges(i)
}

/// The chunk `i` alone: a droplet naming it peels it when it is unknown.
proof fn lemma_single_peels(known: Seq<bool>, i: usize)
    requires
        i < known.len(),
        !known[i as int],
    ensures
        peels(seq![i], known, i),
{
    assert(seq![i].drop_first() =~= Seq::<usize>::empty());
    assert forall|x: usize| #[trigger] occurrences(seq![i], x) == (if x == i { 1nat } else { 0nat }) by {
        assert(seq![i].drop_first() =~= Seq::<usize>::empty());
        assert(occurrences(Seq::<usize>::empty(), x) == 0);
        assert(seq![i][0] == i);
    }
    assert(active_set(seq![i], known) =~= set![i]);
}

/// Along a run of catches, a resolved chunk stays resolved.
proof fn lemma_steps_keep(known: Seq<Seq<bool>>, drops: Seq<DropType>, k: usize, from: int, i: int)
    requires
        known.len() == drops.len() + 1,
        forall|j: int| 0 <= j < drops.len() ==> resolution_step(
            #[trigger] known[j],
            droplet_indices(drops[j], k),
            known[j + 1],
        ),
        0 <= from < known.len(),
        0 <= i < known[from].len(),
        known[from][i],
    ensures
        known.last()[i],
        known.last().len() == known[from].len(),
    decreases known.len() - from,
{
    if from < drops.len() {
        assert(resolution_step(known[from], droplet_indices(drops[from], k), known[from + 1]));
        lemma_steps_keep(known, drops, k, from + 1, i);
    }
}

/// A decoder resolves every chunk once it has caught, in any order and among
/// any other droplets, one droplet naming each chunk alone: so the first `k`
/// droplets of a systematic encoder suffice on a lossless channel.
pub proof fn lemma_explicit_droplets_complete(known: Seq<Seq<bool>>, drops: Seq<DropType>, k: usize)
    requires
        known.len() == drops.len() + 1,
        known[0].len() == k,
        forall|j: int| 0 <= j < drops.len() ==> resolution_step(
            #[trigger] known[j],
            droplet_indices(drops[j], k),
            known[j + 1],
        ),
        forall|i: usize| i < k ==> #[trigger] names_alone(drops, i),
    ensures
        known.last().len() == k,
        forall|i: int| 0 <= i < k ==> #[trigger] known.last()[i],
{
    assert forall|j: int| 0 <= j < known.len() implies (#[trigger] known[j]).len() == k by {
        lemma_steps_len(known, drops, k, j);
    }
    assert forall|i: int| 0 <= i < k implies #[trigger] known.last()[i] by {
        let iu = i as usize;
        assert(names_alone(drops, iu));
        let j = choose|j: int| 0 <= j < drops.len() && #[trigger] drops[j] == DropType::Edges(iu);
        assert(resolution_step(known[j], droplet_indices(drops[j], k), known[j + 1]));
        assert(droplet_indices(drops[j], k) == seq![iu]);
        assert(known[j].len() == k);
        if !known[j][i] {
            lemma_single_peels(known[j], iu);
        }
        assert(known[j + 1][i]);
        lemma_steps_keep(known, drops, k, j + 1, i);
    }
}

proof fn lemma_steps_len(known: Seq<Seq<bool>>, drops: Seq<DropType>, k: usize, j: int)
    requires
        known.len() == drops.len() + 1,
        known[0].len() == k,
        forall|t: int| 0 <= t < drops.len() ==> resolution_step(
            #[trigger] known[t],
            droplet_indices(drops[t], k),
            known[t + 1],
        ),
        0 <= j < known.len(),
    ensures
        known[j].len() == k,
    decreases j,
{
    if j > 0 {
        lemma_steps_len(known, drops, k, j - 1);
        assert(resolution_step(known[j - 1], droplet_indices(drops[j - 1], k), known[j]));
    }
}

pub proof fn lemma_count_true_none(s: Seq<bool>)
    requires
        forall|i: int| 0 <= i < s.len() ==> !(#[trigger] s[i]),
    ensures
        count_true(s) == 0,
    decreases s.len(),
{
    if s.len() > 0 {
        lemma_count_true_none(s.drop_last());
    }
}

} // verus!
