//! The work of one miner: searching a striped range of nonces for one that
//! solves the current proof-of-work challenge.

use vstd::prelude::*;
use uuid::Uuid;

verus! {

/// `uuid::Uuid`, carried through the library unread.
#[verifier::external_type_specification]
#[verifier::external_body]
pub struct ExUuid(Uuid);

/// `<uuid::Uuid as Clone>::clone`: `Uuid` derives `Clone` together with
/// `Copy`, so a clone is the same value.
pub assume_specification[ <Uuid as Clone>::clone ](u: &Uuid) -> (r: Uuid)
    ensures
        r == *u,
;

/// Number of nonces a miner tries before it looks for a new challenge.
pub const BATCH_SIZE: u64 = 100_000;

/// A proof-of-work challenge handed to the miners.
#[derive(Debug, Clone)]
pub struct MineRequest {
    pub seed: String,
    pub tick: u64,
    pub resource_id: Uuid,
    pub agent_id: Uuid,
    pub target_bits: u8,
}

/// A nonce that solves a challenge.
#[derive(Debug, Clone)]
pub struct MineResult {
    pub tick: u64,
    pub resource_id: Uuid,
    pub nonce: u64,
}

/// What a miner's batch came to.
pub enum BatchOutcome {
    /// This result solves the challenge.
    Solved(MineResult),
    /// No nonce of the batch solved the challenge.
    Unsolved,
    /// The last nonce tried was rejected, and the stripe's next nonce does not
    /// fit in a `u64`.
    StripeEnd,
    /// The miner had no challenge.
    Idle,
}

/// The `k`-th nonce of the stripe that starts at `start` with step `stride`.
pub open spec fn nonce_at(start: u64, stride: u64, k: int) -> int {
    start + k * stride
}

/// The state of one miner thread. Miner `thread_id` of `total_threads` tries
/// the nonces `thread_id`, `thread_id + total_threads`, ... of the current
/// challenge, so that the miners never try the same nonce twice.
pub struct MinerWorker {
    pub thread_id: u64,
    pub total_threads: u64,
    pub current: Option<MineRequest>,
    pub nonce: u64,
}

/// The stripe's next nonce is one step further on.
proof fn lemma_stripe_step(start: u64, stride: u64, k: int)
    requires
        0 <= k,
    ensures
        nonce_at(start, stride, k + 1) == nonce_at(start, stride, k) + stride,
        nonce_at(start, stride, k) >= 0,
{
    assert(start + (k + 1) * stride == start + k * stride + stride) by (nonlinear_arith);
    assert(k * stride >= 0) by (nonlinear_arith)
        requires
            k >= 0,
            stride >= 0,
    ;
}

/// Batches follow on from each other: the `j`-th nonce of a stripe that
/// starts where `k` steps of another stripe with the same step end is the
/// `(k + j)`-th nonce of that other stripe. So the batches a miner mines one
/// after the other since it took up a challenge scan its stripe without gap
/// from the start.
pub proof fn lemma_stripe_continues(start: u64, stride: u64, k: int, j: int)
    requires
        0 <= k,
        nonce_at(start, stride, k) <= u64::MAX,
    ensures
        nonce_at(nonce_at(start, stride, k) as u64, stride, j) == nonce_at(start, stride, k + j),
{
    lemma_stripe_step(start, stride, k);
    assert(start + k * stride + j * stride == start + (k + j) * stride) by (nonlinear_arith);
}

/// How a scan of one batch ended.
enum Scan {
    /// This nonce was accepted.
    Hit(u64),
    /// No nonce was accepted; the stripe goes on from this nonce.
    Miss(u64),
    /// This nonce, the last one tried, was rejected and the stripe's next
    /// nonce does not fit in a `u64`.
    End(u64),
}

/// Tries the `BATCH_SIZE` nonces `start`, `start + stride`, ... in turn and
/// stops at the first one that `pow_valid` accepts, or where the next nonce
/// would not fit in a `u64`.
fn search_batch<F: Fn(&MineRequest, u64) -> bool>(
    req: &MineRequest,
    start: u64,
    stride: u64,
    pow_valid: &F,
) -> (r: Scan)
    requires
        forall|n: u64| pow_valid.requires((req, n)),
    ensures
        r matches Scan::Hit(n) ==> exists|k: int|
            0 <= k < BATCH_SIZE && n == nonce_at(start, stride, k) && pow_valid.ensures(
                (req, n),
                true,
            ) && forall|j: int|
                0 <= j < k ==> #[trigger] pow_valid.ensures(
                    (req, nonce_at(start, stride, j) as u64),
                    false,
                ),
        r matches Scan::Miss(n) ==> n == nonce_at(start, stride, BATCH_SIZE as int) && forall|
            j: int,
        |
            0 <= j < BATCH_SIZE ==> #[trigger] pow_valid.ensures(
                (req, nonce_at(start, stride, j) as u64),
                false,
            ),
        r matches Scan::End(n) ==> exists|k: int|
            0 <= k < BATCH_SIZE && n == nonce_at(start, stride, k) && n + stride > u64::MAX
                && forall|j: int|
                0 <= j <= k ==> #[trigger] pow_valid.ensures(
                    (req, nonce_at(start, stride, j) as u64),
                    false,
                ),
{
    let mut nonce = start;
    let mut i: u64 = 0;
    assert(nonce_at(start, stride, 0) == start);
    while i < BATCH_SIZE
        invariant
            forall|n: u64| pow_valid.requires((req, n)),
            i <= BATCH_SIZE,
            nonce == nonce_at(start, stride, i as int),
            forall|j: int|
                0 <= j < i ==> #[trigger] pow_valid.ensures(
                    (req, nonce_at(start, stride, j) as u64),
                    false,
                ),
        decreases BATCH_SIZE - i,
    {
        if pow_valid(req, nonce) {
            return Scan::Hit(nonce);
        }
        proof {
            lemma_stripe_step(start, stride, i as int);
        }
        if nonce > u64::MAX - stride {
            return Scan::End(nonce);
        }
        nonce = nonce + stride;
        i = i + 1;
    }
    Scan::Miss(nonce)
}

/// Moving along a stripe keeps the remainder modulo the stripe's step.
pub proof fn lemma_stripe_keeps_remainder(start: u64, stride: u64, k: int)
    requires
        stride > 0,
        k >= 0,
    ensures
        nonce_at(start, stride, k) % (stride as int) == start % stride,
{
    vstd::arithmetic::mul::lemma_mul_is_commutative(k, stride as int);
    vstd::arithmetic::div_mod::lemma_mod_multiples_vanish(k, start as int, stride as int);
}

/// Two miners of one pool never try the same nonce: whatever batches they go
/// on to mine, the nonces of one are never nonces of the other.
pub proof fn lemma_miners_never_overlap(a: &MinerWorker, b: &MinerWorker, j: int, k: int)
    requires
        a.on_stripe(),
        b.on_stripe(),
        a.total_threads == b.total_threads,
        a.thread_id != b.thread_id,
        0 <= j,
        0 <= k,
    ensures
        nonce_at(a.nonce, a.total_threads, j) != nonce_at(b.nonce, b.total_threads, k),
{
    lemma_stripe_keeps_remainder(a.nonce, a.total_threads, j);
    lemma_stripe_keeps_remainder(b.nonce, b.total_threads, k);
}

/// The stripes of a pool of `total_threads` fresh miners cover every nonce:
/// nonce `n` is the `n / total_threads`-th nonce of miner `n % total_threads`.
pub proof fn lemma_stripes_cover(n: u64, total_threads: u64)
    requires
        total_threads > 0,
    ensures
        n % total_threads < total_threads,
        n as int == nonce_at(
            (n % total_threads) as u64,
            total_threads,
            (n / total_threads) as int,
        ),
{
    vstd::arithmetic::div_mod::lemma_fundamental_div_mod(n as int, total_threads as int);
    vstd::arithmetic::mul::lemma_mul_is_commutative(
        (n / total_threads) as int,
        total_threads as int,
    );
}

impl MinerWorker {
    /// The miner is on its stripe: its thread number is below the number of
    /// miners, and its next nonce leaves its thread number as remainder when
    /// divided by the number of miners.
    pub open spec fn on_stripe(&self) -> bool {
        &&& self.thread_id < self.total_threads
        &&& self.nonce % self.total_threads == self.thread_id
    }

    /// A miner with no challenge yet.
    pub fn new(thread_id: u64, total_threads: u64) -> (w: Self)
        ensures
            w.thread_id == thread_id,
            w.total_threads == total_threads,
            w.current is None,
            w.nonce == thread_id,
            thread_id < total_threads ==> w.on_stripe(),
    {
        proof {
            if thread_id < total_threads {
                vstd::arithmetic::div_mod::lemma_small_mod(thread_id as nat, total_threads as nat);
            }
        }
        MinerWorker { thread_id, total_threads, current: None, nonce: thread_id }
    }

    /// Takes up a new challenge, dropping the current one, and starts its
    /// stripe from the beginning.
    pub fn assign(&mut self, request: MineRequest)
        ensures
            final(self).current == Some(request),
            final(self).nonce == old(self).thread_id,
            final(self).thread_id == old(self).thread_id,
            final(self).total_threads == old(self).total_threads,
            old(self).thread_id < old(self).total_threads ==> final(self).on_stripe(),
    {
        proof {
            if self.thread_id < self.total_threads {
                vstd::arithmetic::div_mod::lemma_small_mod(
                    self.thread_id as nat,
                    self.total_threads as nat,
                );
            }
        }
        self.current = Some(request);
        self.nonce = self.thread_id;
    }

    /// The miner has no challenge to work on.
    pub fn is_idle(&self) -> (b: bool)
        ensures
            b == self.current is None,
    {
        self.current.is_none()
    }

    /// Tries the next `BATCH_SIZE` nonces of this miner's stripe on the current
    /// challenge. On a solution, returns it and drops the challenge. When the
    /// stripe's next nonce no longer fits in a `u64`, stops there. Otherwise
    /// the stripe moves on by `BATCH_SIZE` steps. An idle miner does nothing.
    pub fn mine_batch<F: Fn(&MineRequest, u64) -> bool>(&mut self, pow_valid: &F) -> (outcome:
        BatchOutcome)
        requires
            forall|r: &MineRequest, n: u64| pow_valid.requires((r, n)),
        ensures
            final(self).thread_id == old(self).thread_id,
            final(self).total_threads == old(self).total_threads,
            old(self).on_stripe() ==> final(self).on_stripe(),
            old(self).current is None ==> outcome is Idle && final(self).current is None
                && final(self).nonce == old(self).nonce,
            old(self).current matches Some(req) ==> match outcome {
                BatchOutcome::Solved(res) => {
                    &&& res.tick == req.tick
                    &&& res.resource_id == req.resource_id
                    &&& pow_valid.ensures((&req, res.nonce), true)
                    &&& exists|k: int|
                        0 <= k < BATCH_SIZE && res.nonce == nonce_at(
                            old(self).nonce,
                            old(self).total_threads,
                            k,
                        ) && forall|j: int|
                            0 <= j < k ==> #[trigger] pow_valid.ensures(
                                (&req, nonce_at(old(self).nonce, old(self).total_threads, j) as u64),
                                false,
                            )
                    &&& final(self).current is None
                    &&& final(self).nonce == res.nonce
                },
                BatchOutcome::Unsolved => {
                    &&& forall|j: int|
                        0 <= j < BATCH_SIZE ==> #[trigger] pow_valid.ensures(
                            (&req, nonce_at(old(self).nonce, old(self).total_threads, j) as u64),
                            false,
                        )
                    &&& final(self).current == old(self).current
                    &&& final(self).nonce == nonce_at(
                        old(self).nonce,
                        old(self).total_threads,
                        BATCH_SIZE as int,
                    )
                },
                BatchOutcome::StripeEnd => {
                    &&& exists|k: int|
                        0 <= k < BATCH_SIZE && final(self).nonce == nonce_at(
                            old(self).nonce,
                            old(self).total_threads,
                            k,
                        ) && forall|j: int|
                            0 <= j <= k ==> #[trigger] pow_valid.ensures(
                                (&req, nonce_at(old(self).nonce, old(self).total_threads, j) as u64),
                                false,
                            )
                    &&& final(self).nonce + final(self).total_threads > u64::MAX
                    &&& final(self).current == old(self).current
                },
                BatchOutcome::Idle => false,
            },
    {
        let scan = match &self.current {
            None => {
                return BatchOutcome::Idle;
            },
            Some(req) => search_batch(req, self.nonce, self.total_threads, pow_valid),
        };
        proof {
            if old(self).on_stripe() {
                match scan {
                    Scan::Hit(n) => {
                        let k = choose|k: int|
                            0 <= k < BATCH_SIZE && n == nonce_at(
                                old(self).nonce,
                                old(self).total_threads,
                                k,
                            );
                        lemma_stripe_keeps_remainder(old(self).nonce, old(self).total_threads, k);
                    },
                    Scan::End(n) => {
                        let k = choose|k: int|
                            0 <= k < BATCH_SIZE && n == nonce_at(
                                old(self).nonce,
                                old(self).total_threads,
                                k,
                            );
                        lemma_stripe_keeps_remainder(old(self).nonce, old(self).total_threads, k);
                    },
                    Scan::Miss(_) => {
                        lemma_stripe_keeps_remainder(
                            old(self).nonce,
                            old(self).total_threads,
                            BATCH_SIZE as int,
                        );
                    },
                }
            }
        }
        match scan {
            Scan::Hit(nonce) => {
                self.nonce = nonce;
                let (tick, resource_id) = match &self.current {
                    Some(req) => (req.tick, req.resource_id),
                    None => {
                        return BatchOutcome::Idle;
                    },
                };
                self.current = None;
                BatchOutcome::Solved(MineResult { tick, resource_id, nonce })
            },
            Scan::Miss(next) => {
                self.nonce = next;
                BatchOutcome::Unsolved
            },
            Scan::End(last) => {
                self.nonce = last;
                BatchOutcome::StripeEnd
            },
        }
    }
}

} // verus!
