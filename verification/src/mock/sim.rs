//! The simulated worker: prefix-cache accounting of requests in flight.
//!
//! A request's claim (its uncached prompt and its output reservation) counts
//! from admission to completion, since decoding depends on the whole prompt.
//! Blocks that it matched are pinned from admission; the rest of the prompt can
//! be matched once prefill is done, and is pinned as well; with completion all
//! of it becomes evictable, with the output appended. A request that ends before
//! prefill is done publishes nothing.

use super::hash::chain_hashes;
use super::hash::chain_of;
use super::hash::fnv64;
use super::hash::fnv_bytes;
use super::hash::scrambled;
use super::hash::splitmix64;
use super::hash::FNV_SEED;
use super::kv::KvIndex;
use super::kv::KvView;
use crate::text;
use vstd::prelude::*;
use vstd::slice::slice_subrange;
use vstd::string::StringSliceAdditionalSpecFns;

verus! {

/// Tunables of a simulated worker.
#[derive(Debug, Clone, Copy, PartialEq, Eq, Structural)]
pub struct SimParams {
    /// How many requests run at once; further ones wait.
    pub max_running: usize,
    /// Capacity in tokens, shared by running requests and the cache.
    pub kv_capacity_tokens: u64,
    /// Tokens per cache block.
    pub block_size: usize,
    /// The token id that stands for an image.
    pub image_placeholder_id: u32,
    /// Tokens per image without a place in the input; 0 to derive them from
    /// the image's size.
    pub image_tokens_per_image: usize,
    /// Bytes of an image per derived token.
    pub image_bytes_per_token: usize,
}

impl Default for SimParams {
    fn default() -> (r: SimParams)
        ensures
            r == (SimParams {
                max_running: 256,
                kv_capacity_tokens: 1_200_000,
                block_size: 128,
                image_placeholder_id: 151_655,
                image_tokens_per_image: 0,
                image_bytes_per_token: 2800,
            }),
    {
        SimParams {
            max_running: 256,
            kv_capacity_tokens: 1_200_000,
            block_size: 128,
            image_placeholder_id: 151_655,
            image_tokens_per_image: 0,
            image_bytes_per_token: 2800,
        }
    }
}

/// Load of a worker, but for its rates.
#[derive(Debug, Clone, Copy, PartialEq, Eq, Structural)]
pub struct SimLoad {
    pub num_running_reqs: i64,
    pub num_waiting_reqs: i64,
    pub num_waiting_uncached_tokens: i64,
    pub num_used_tokens: i64,
    pub max_total_num_tokens: i64,
    pub max_running_requests: i64,
}

/// A simulated worker.
pub struct SimWorker {
    params: SimParams,
    port: u16,
    running: usize,
    waiting: usize,
    waiting_uncached_tokens: i64,
    /// What running requests claim: uncached prompt and output reservation.
    running_tokens: u64,
    kv: KvIndex,
}

/// A simulated worker as plain values.
pub struct SimView {
    pub params: SimParams,
    pub port: u16,
    pub running: int,
    pub waiting: int,
    pub waiting_uncached_tokens: int,
    pub running_tokens: int,
    pub kv: KvView,
}

/// What a request in flight holds on to.
pub struct CompletionGuard {
    effective: Vec<u32>,
    output: Vec<u32>,
    /// Hashes of the prompt's blocks.
    chain: Vec<u64>,
    /// How many leading blocks of the chain the request pins.
    pinned_blocks: usize,
    private_tokens: u64,
    prefill_done: bool,
}

/// What a request in flight holds on to, as plain values.
pub struct GuardView {
    pub prompt: Seq<u32>,
    pub output: Seq<u32>,
    pub chain: Seq<u64>,
    pub pinned_blocks: int,
    pub private_tokens: int,
    pub prefill_done: bool,
}

impl View for CompletionGuard {
    type V = GuardView;

    closed spec fn view(&self) -> GuardView {
        GuardView {
            prompt: self.effective@,
            output: self.output@,
            chain: self.chain@,
            pinned_blocks: self.pinned_blocks as int,
            private_tokens: self.private_tokens as int,
            prefill_done: self.prefill_done,
        }
    }
}

/// A request in flight.
pub struct Admitted {
    pub prompt_tokens: usize,
    pub cached_tokens: usize,
    pub output_ids: Vec<u32>,
    pub request_id: String,
    pub worker_port: u16,
    pub guard: CompletionGuard,
}

impl View for SimWorker {
    type V = SimView;

    closed spec fn view(&self) -> SimView {
        SimView {
            params: self.params,
            port: self.port,
            running: self.running as int,
            waiting: self.waiting as int,
            waiting_uncached_tokens: self.waiting_uncached_tokens as int,
            running_tokens: self.running_tokens as int,
            kv: self.kv@,
        }
    }
}

/// `a` less `b`, and at least 0.
pub open spec fn less(a: int, b: int) -> int {
    if a < b {
        0
    } else {
        a - b
    }
}

/// What a request claims while it runs.
pub open spec fn claim(prompt: int, cached: int, max_new: u32) -> int {
    prompt - cached + max_new
}

/// The number that a request's output and id are derived from: of its content
/// alone, so that the same content gives the same output everywhere.
pub open spec fn request_seed(prompt: Seq<u32>, block: int, max_new: u32) -> u64 {
    let chain = chain_of(prompt, block);
    let tail = if chain.len() == 0 {
        FNV_SEED
    } else {
        chain.last()
    };
    scrambled(tail ^ (prompt.len() as u64) ^ ((max_new as u64) << 32))
}

/// Output token `k`.
pub open spec fn output_token(seed: u64, k: int) -> u32 {
    (scrambled(seed ^ (k as u64)) % 30_000) as u32
}

/// The output of a request.
pub open spec fn output_of(seed: u64, max_new: u32) -> Seq<u32> {
    Seq::new(max_new as nat, |k: int| output_token(seed, k))
}

/// What a request is answered: of its content, of how much it asks for and of the
/// block size alone.
pub open spec fn output_for(prompt: Seq<u32>, block: int, max_new: u32) -> Seq<u32> {
    output_of(request_seed(prompt, block, max_new), max_new)
}

/// A request's id.
pub open spec fn request_id_of(port: u16, seed: u64) -> Seq<char> {
    "sim-"@ + text::decimal(port as nat) + "-"@ + text::hexadecimal(seed as nat, 16)
}

impl SimView {
    /// The blocks of a prompt that the cache has.
    pub open spec fn hit(self, prompt: Seq<u32>) -> int {
        self.kv.matched(chain_of(prompt, self.params.block_size as int))
    }

    /// What may be cached beside the running requests.
    pub open spec fn budget(self) -> int {
        less(self.params.kv_capacity_tokens as int, self.running_tokens)
    }

    /// The worker with a request of `tokens` tokens waiting.
    pub open spec fn queued(self, tokens: int) -> SimView {
        SimView {
            waiting: self.waiting + 1,
            waiting_uncached_tokens: self.waiting_uncached_tokens + tokens,
            ..self
        }
    }

    /// The worker with the request admitted.
    pub open spec fn admitted(self, prompt: Seq<u32>, max_new: u32) -> SimView {
        let block = self.params.block_size as int;
        let chain = chain_of(prompt, block);
        let n = self.hit(prompt);
        let running_tokens = self.running_tokens + claim(
            prompt.len() as int,
            n * block,
            max_new,
        );
        SimView {
            running: self.running + 1,
            waiting: self.waiting - 1,
            waiting_uncached_tokens: self.waiting_uncached_tokens - prompt.len(),
            running_tokens,
            kv: self.kv.looked_at_all(chain.take(n)).pin_all(chain.take(n)).evicted(
                less(self.params.kv_capacity_tokens as int, running_tokens),
                block,
            ),
            ..self
        }
    }

    /// The load. Usage counts running requests only.
    pub open spec fn load_of(self) -> SimLoad {
        let cap = if self.params.kv_capacity_tokens == 0 {
            1int
        } else {
            self.params.kv_capacity_tokens as int
        };
        let used = if self.running_tokens < cap {
            self.running_tokens
        } else {
            cap
        };
        SimLoad {
            num_running_reqs: self.running as i64,
            num_waiting_reqs: self.waiting as i64,
            num_waiting_uncached_tokens: self.waiting_uncached_tokens as i64,
            num_used_tokens: used as i64,
            max_total_num_tokens: cap as i64,
            max_running_requests: self.params.max_running as i64,
        }
    }

    /// What the request holds on to when it is admitted.
    pub open spec fn request(self, prompt: Seq<u32>, max_new: u32) -> GuardView {
        let block = self.params.block_size as int;
        let n = self.hit(prompt);
        GuardView {
            prompt,
            output: output_for(prompt, block, max_new),
            chain: chain_of(prompt, block),
            pinned_blocks: n,
            private_tokens: claim(prompt.len() as int, n * block, max_new),
            prefill_done: false,
        }
    }

    /// The worker with the request's prefill done.
    pub open spec fn prefilled(self, r: GuardView) -> SimView {
        if r.prefill_done {
            self
        } else {
            SimView { kv: self.kv.pin_all(r.chain.skip(r.pinned_blocks)), ..self }
        }
    }

    /// The worker without the request.
    pub open spec fn completed(self, r: GuardView) -> SimView {
        let block = self.params.block_size as int;
        let released = self.kv.unpin_all(r.chain.take(r.pinned_blocks));
        let published = if r.prefill_done {
            released.looked_at_all(chain_of(r.prompt + r.output, block))
        } else {
            released
        };
        let running_tokens = less(self.running_tokens, r.private_tokens);
        SimView {
            running: less(self.running, 1),
            running_tokens,
            kv: published.evicted(
                less(self.params.kv_capacity_tokens as int, running_tokens),
                block,
            ),
            ..self
        }
    }
}

impl GuardView {
    /// The request with its prefill done.
    pub open spec fn after_prefill(self) -> GuardView {
        GuardView { prefill_done: true, pinned_blocks: self.chain.len() as int, ..self }
    }

    /// It pins a part of its chain, and all of it once prefill is done.
    pub open spec fn wf(self) -> bool {
        &&& 0 <= self.pinned_blocks <= self.chain.len()
        &&& self.prefill_done ==> self.pinned_blocks == self.chain.len()
    }
}

/// Image bytes by place.
pub open spec fn image_bytes(images: Seq<&str>) -> Seq<Seq<u8>> {
    images.map_values(|s: &str| s.spec_bytes())
}

/// Token `k` of an image.
pub open spec fn image_token(bytes: Seq<u8>, k: int) -> u32 {
    let seed = scrambled(fnv_bytes(FNV_SEED, bytes));
    (scrambled(seed ^ (k as u64)) % 1_000_000 + 1_000_000) as u32
}

/// Where the run of placeholders around position `i` starts.
pub open spec fn run_start(ids: Seq<u32>, ph: u32, i: int) -> int
    decreases i,
{
    if i <= 0 || ids[i - 1] != ph {
        i
    } else {
        run_start(ids, ph, i - 1)
    }
}

/// How many runs of placeholders start before position `i`.
pub open spec fn runs_before(ids: Seq<u32>, ph: u32, i: int) -> int
    decreases i,
{
    if i <= 0 {
        0
    } else {
        runs_before(ids, ph, i - 1) + if ids[i - 1] == ph && (i == 1 || ids[i - 2] != ph) {
            1int
        } else {
            0int
        }
    }
}

/// What is cached for position `i`: the token itself, or, for a placeholder, a
/// token of the image that its run stands for, if there is one.
pub open spec fn effective_at(ids: Seq<u32>, images: Seq<Seq<u8>>, ph: u32, i: int) -> u32 {
    let r = runs_before(ids, ph, i + 1) - 1;
    if ids[i] == ph && r < images.len() {
        image_token(images[r], i - run_start(ids, ph, i))
    } else {
        ids[i]
    }
}

/// Tokens that an image without a place in the input contributes.
pub open spec fn image_span(bytes: Seq<u8>, params: SimParams) -> int {
    if params.image_tokens_per_image > 0 {
        params.image_tokens_per_image as int
    } else {
        let per = if params.image_bytes_per_token == 0 {
            1int
        } else {
            params.image_bytes_per_token as int
        };
        if bytes.len() as int / per < 1 {
            1
        } else {
            bytes.len() as int / per
        }
    }
}

/// The tokens of some images, one after the other.
pub open spec fn image_tokens(images: Seq<Seq<u8>>, params: SimParams) -> Seq<u32>
    decreases images.len(),
{
    if images.len() == 0 {
        Seq::empty()
    } else {
        image_tokens(images.drop_last(), params) + Seq::new(
            image_span(images.last(), params) as nat,
            |k: int| image_token(images.last(), k),
        )
    }
}

/// The sequence that is cached for an input with images.
pub open spec fn effective_of(ids: Seq<u32>, images: Seq<Seq<u8>>, params: SimParams) -> Seq<u32> {
    let ph = params.image_placeholder_id;
    let runs = runs_before(ids, ph, ids.len() as int);
    Seq::new(ids.len(), |i: int| effective_at(ids, images, ph, i)) + image_tokens(
        if runs < images.len() {
            images.skip(runs)
        } else {
            Seq::empty()
        },
        params,
    )
}

/// Appends tokens of an image.
fn push_image(out: &mut Vec<u32>, image: &str, n: usize)
    ensures
        final(out)@ == old(out)@ + Seq::new(n as nat, |k: int| image_token(image.spec_bytes(), k)),
{
    let ghost pre = out@;
    let seed: u64 = splitmix64(fnv64(image.as_bytes()));
    let mut k: usize = 0;
    assert(out@ =~= pre + Seq::new(0, |k: int| image_token(image.spec_bytes(), k)));
    while k < n
        invariant
            k <= n,
            seed == scrambled(fnv_bytes(FNV_SEED, image.spec_bytes())),
            out@ == pre + Seq::new(k as nat, |k: int| image_token(image.spec_bytes(), k)),
        decreases n - k,
    {
        let mixed: u64 = splitmix64(seed ^ (k as u64)) % 1_000_000;
        out.push(mixed as u32 + 1_000_000);
        k = k + 1;
        assert(out@ =~= pre + Seq::new(k as nat, |k: int| image_token(image.spec_bytes(), k)));
    }
}

/// The length of a run of placeholders from where it starts.
proof fn within_run(ids: Seq<u32>, ph: u32, from: int, i: int)
    requires
        0 <= from <= i < ids.len(),
        from == 0 || ids[from - 1] != ph,
        forall|x: int| from <= x <= i ==> ids[x] == ph,
    ensures
        run_start(ids, ph, i) == from,
        runs_before(ids, ph, i + 1) == runs_before(ids, ph, from) + 1,
    decreases i - from,
{
    if i > from {
        within_run(ids, ph, from, i - 1);
        assert(ids[i - 1] == ph);
    } else {
        assert(ids[from] == ph);
    }
}

impl SimWorker {
    /// A valid worker.
    pub closed spec fn wf(&self) -> bool {
        self.kv.wf()
    }

    /// What validity means to a caller.
    pub proof fn validity(&self)
        requires
            self.wf(),
        ensures
            self@.kv.wf(),
    {
        self.kv.validity();
    }

    /// How often a cache block was touched or pinned.
    pub closed spec fn work(&self) -> nat {
        self.kv.work()
    }

    /// An idle worker.
    pub fn new(params: SimParams, port: u16) -> (r: SimWorker)
        ensures
            r.wf(),
            r.work() == 0,
            (r@ == SimView {
                params,
                port,
                running: 0,
                waiting: 0,
                waiting_uncached_tokens: 0,
                running_tokens: 0,
                kv: KvView { pinned: Map::empty(), cached: Seq::empty() },
            }),
    {
        SimWorker {
            params,
            port,
            running: 0,
            waiting: 0,
            waiting_uncached_tokens: 0,
            running_tokens: 0,
            kv: KvIndex::new(),
        }
    }

    /// How many requests may run at once: one at least.
    pub fn width(&self) -> (r: usize)
        ensures
            r == if self@.params.max_running == 0 {
                1
            } else {
                self@.params.max_running
            },
    {
        if self.params.max_running == 0 {
            1
        } else {
            self.params.max_running
        }
    }

    /// The load. Usage counts running requests only: what is cached and idle
    /// can be evicted at any time.
    pub fn load(&self) -> (r: SimLoad)
        ensures
            r == self@.load_of(),
    {
        let cap: u64 = if self.params.kv_capacity_tokens == 0 {
            1
        } else {
            self.params.kv_capacity_tokens
        };
        let used: u64 = if self.running_tokens < cap {
            self.running_tokens
        } else {
            cap
        };
        SimLoad {
            num_running_reqs: #[verifier::truncate] (self.running as i64),
            num_waiting_reqs: #[verifier::truncate] (self.waiting as i64),
            num_waiting_uncached_tokens: self.waiting_uncached_tokens,
            num_used_tokens: #[verifier::truncate] (used as i64),
            max_total_num_tokens: #[verifier::truncate] (cap as i64),
            max_running_requests: #[verifier::truncate] (self.params.max_running as i64),
        }
    }

    /// Tokens that are cached and evictable.
    pub fn cache_tokens(&self) -> (r: u64)
        requires
            self.wf(),
            self@.kv.cached.len() * self@.params.block_size <= u64::MAX,
        ensures
            r == self@.kv.cached.len() * self@.params.block_size,
    {
        self.kv.evictable_tokens(self.params.block_size)
    }

    /// Tokens that running requests pin.
    pub fn pinned_tokens(&self) -> (r: u64)
        requires
            self.wf(),
            self@.kv.pinned.len() * self@.params.block_size <= u64::MAX,
        ensures
            r == self@.kv.pinned.len() * self@.params.block_size,
    {
        self.kv.pinned_tokens(self.params.block_size)
    }

    /// The sequence that is cached for an input: each run of placeholders gives
    /// way to tokens that are derived from the bytes of its image, and images
    /// without a run are appended. A router that sees the input does not see
    /// this.
    pub fn effective_sequence(&self, input_ids: &[u32], images: &[&str]) -> (r: Vec<u32>)
        ensures
            r@ == effective_of(input_ids@, image_bytes(images@), self@.params),
    {
        let ph: u32 = self.params.image_placeholder_id;
        let ghost ids = input_ids@;
        let ghost bytes = image_bytes(images@);
        let mut out: Vec<u32> = Vec::new();
        let mut image_idx: usize = 0;
        let mut i: usize = 0;
        while i < input_ids.len()
            invariant
                ids == input_ids@,
                bytes == image_bytes(images@),
                i <= ids.len(),
                image_idx <= i,
                image_idx == runs_before(ids, ph, i as int),
                i == 0 || i == ids.len() || ids[i as int] != ph || ids[i - 1] != ph,
                out@ == Seq::new(i as nat, |x: int| effective_at(ids, bytes, ph, x)),
            decreases ids.len() - i,
        {
            if input_ids[i] == ph {
                let start: usize = i;
                let ghost pre = out@;
                while i < input_ids.len() && input_ids[i] == ph
                    invariant
                        ids == input_ids@,
                        start <= i <= ids.len(),
                        forall|x: int| start <= x < i ==> ids[x] == ph,
                    decreases ids.len() - i,
                {
                    i = i + 1;
                }
                let run: usize = i - start;
                assert(run > 0);
                proof {
                    assert forall|x: int| start <= x < i implies run_start(ids, ph, x) == start
                        && runs_before(ids, ph, x + 1) == image_idx + 1 by {
                        within_run(ids, ph, start as int, x);
                    }
                    within_run(ids, ph, start as int, i - 1);
                }
                if image_idx < images.len() {
                    push_image(&mut out, images[image_idx], run);
                    proof {
                        assert(bytes[image_idx as int] == images@[image_idx as int].spec_bytes());
                        assert(out@ =~= Seq::new(
                            i as nat,
                            |x: int| effective_at(ids, bytes, ph, x),
                        ));
                    }
                } else {
                    let mut k: usize = 0;
                    assert(out@ =~= pre + Seq::new(0, |x: int| ph));
                    while k < run
                        invariant
                            k <= run,
                            out@ == pre + Seq::new(k as nat, |x: int| ph),
                        decreases run - k,
                    {
                        out.push(ph);
                        k = k + 1;
                        assert(out@ =~= pre + Seq::new(k as nat, |x: int| ph));
                    }
                    assert(out@ =~= Seq::new(i as nat, |x: int| effective_at(ids, bytes, ph, x)));
                }
                image_idx = image_idx + 1;
            } else {
                out.push(input_ids[i]);
                i = i + 1;
                assert(out@ =~= Seq::new(i as nat, |x: int| effective_at(ids, bytes, ph, x)));
            }
        }
        let ghost base = out@;
        let ghost rest = if image_idx < images@.len() {
            bytes.skip(image_idx as int)
        } else {
            Seq::empty()
        };
        let ghost first = image_idx as int;
        proof {
            assert(rest.take(0) =~= Seq::<Seq<u8>>::empty());
            assert(out@ =~= base + image_tokens(rest.take(0), self@.params));
        }
        while image_idx < images.len()
            invariant
                bytes == image_bytes(images@),
                0 <= first <= image_idx,
                image_idx <= images@.len() || image_idx == first,
                rest == (if first < images@.len() {
                    bytes.skip(first)
                } else {
                    Seq::empty()
                }),
                out@ == base + image_tokens(rest.take(image_idx - first), self@.params),
            decreases images@.len() - image_idx,
        {
            let image = images[image_idx];
            let ghost mid = out@;
            let n: usize = if self.params.image_tokens_per_image > 0 {
                self.params.image_tokens_per_image
            } else {
                let per: usize = if self.params.image_bytes_per_token == 0 {
                    1
                } else {
                    self.params.image_bytes_per_token
                };
                proof {
                    broadcast use vstd::slice::axiom_spec_len;

                }
                let len: usize = image.as_bytes().len();
                if len / per < 1 {
                    1
                } else {
                    len / per
                }
            };
            push_image(&mut out, image, n);
            proof {
                let now = rest.take(image_idx - first + 1);
                assert(now.drop_last() =~= rest.take(image_idx - first));
                assert(now.last() == image.spec_bytes());
                assert(n == image_span(image.spec_bytes(), self@.params));
                assert(out@ =~= base + image_tokens(now, self@.params));
            }
            image_idx = image_idx + 1;
        }
        proof {
            assert(rest.take(image_idx - first) =~= rest);
            assert(out@ =~= effective_of(ids, bytes, self@.params));
        }
        out
    }

    /// A request with a prompt of `tokens` tokens starts to wait.
    pub fn enqueue(&mut self, tokens: usize)
        requires
            old(self).wf(),
            old(self)@.waiting < usize::MAX,
            tokens <= i64::MAX,
            old(self)@.waiting_uncached_tokens + tokens <= i64::MAX,
        ensures
            final(self).wf(),
            final(self)@ == old(self)@.queued(tokens as int),
            final(self).work() == old(self).work(),
    {
        self.waiting = self.waiting + 1;
        self.waiting_uncached_tokens = self.waiting_uncached_tokens + tokens as i64;
    }

    /// Admits a request that waited: finds out what of its prompt is cached,
    /// pins that, and makes room for the rest. The output depends on the request
    /// and the block size only, never on what was admitted before, on what is cached
    /// or on the port.
    pub fn admit_request(&mut self, effective: Vec<u32>, max_new: u32) -> (r: Admitted)
        requires
            old(self).wf(),
            old(self)@.params.block_size > 0,
            old(self)@.waiting > 0,
            old(self)@.running < usize::MAX,
            effective@.len() <= i64::MAX,
            old(self)@.waiting_uncached_tokens - effective@.len() >= i64::MIN,
            old(self)@.running_tokens + effective@.len() + max_new <= u64::MAX,
            old(self).work() + 2 * effective@.len() <= u64::MAX,
        ensures
            final(self).wf(),
            final(self)@ == old(self)@.admitted(effective@, max_new),
            r.guard@ == old(self)@.request(effective@, max_new),
            r.guard@.wf(),
            r.prompt_tokens == effective@.len(),
            r.cached_tokens == old(self)@.hit(effective@) * old(self)@.params.block_size,
            r.output_ids@ == output_for(effective@, old(self)@.params.block_size as int, max_new),
            r.output_ids@ == r.guard@.output,
            r.output_ids@.len() == max_new,
            forall|k: int| 0 <= k < max_new ==> #[trigger] r.output_ids@[k] < 30_000,
            r.request_id@ == request_id_of(
                old(self)@.port,
                request_seed(effective@, old(self)@.params.block_size as int, max_new),
            ),
            r.worker_port == old(self)@.port,
            final(self).work() <= old(self).work() + 2 * effective@.len(),
    {
        let ghost pre = self@;
        let block: usize = self.params.block_size;
        let prompt_tokens: usize = effective.len();
        let chain = chain_hashes(effective.as_slice(), block);
        proof {
            blocks_fit(effective@.len() as int, block as int);
        }
        self.waiting = self.waiting - 1;
        proof {
            assert(effective.len() == effective@.len());
        }
        self.waiting_uncached_tokens = self.waiting_uncached_tokens - prompt_tokens as i64;
        self.running = self.running + 1;
        let matched: usize = self.kv.match_blocks(chain.as_slice());
        let ghost n = matched as int;
        assert(n * block <= chain@.len() * block) by (nonlinear_arith)
            requires
                n <= chain@.len(),
                block > 0,
        ;
        let cached_tokens: usize = matched * block;
        self.kv.pin(slice_subrange(chain.as_slice(), 0, matched));
        assert(chain@.subrange(0, n) =~= chain@.take(n));
        let private_tokens: u64 = (prompt_tokens - cached_tokens) as u64 + max_new as u64;
        self.running_tokens = self.running_tokens + private_tokens;
        let budget: u64 = if self.params.kv_capacity_tokens < self.running_tokens {
            0
        } else {
            self.params.kv_capacity_tokens - self.running_tokens
        };
        self.kv.evict_to(budget, block);
        let tail: u64 = if chain.len() == 0 {
            FNV_SEED
        } else {
            chain[chain.len() - 1]
        };
        let seed: u64 = splitmix64(tail ^ (prompt_tokens as u64) ^ ((max_new as u64) << 32));
        let output_ids = outputs(seed, max_new);
        let output = outputs(seed, max_new);
        let mut request_id = "sim-".to_owned();
        text::push_decimal(&mut request_id, self.port as u64);
        request_id.append("-");
        text::push_hexadecimal(&mut request_id, seed, 16);
        proof {
            assert(seed == request_seed(effective@, block as int, max_new));
            assert(self@ == pre.admitted(effective@, max_new));
        }
        Admitted {
            prompt_tokens,
            cached_tokens,
            output_ids,
            request_id,
            worker_port: self.port,
            guard: CompletionGuard {
                effective,
                output,
                chain,
                pinned_blocks: matched,
                private_tokens,
                prefill_done: false,
            },
        }
    }
}

/// A sequence has room for its full blocks.
proof fn blocks_fit(n: int, block: int)
    requires
        n >= 0,
        block > 0,
    ensures
        0 <= n / block <= n,
        (n / block) * block <= n,
{
    assert(0 <= n / block <= n && (n / block) * block <= n) by (nonlinear_arith)
        requires
            n >= 0,
            block > 0,
    ;
}

fn outputs(seed: u64, max_new: u32) -> (r: Vec<u32>)
    ensures
        r@ == output_of(seed, max_new),
{
    let mut out: Vec<u32> = Vec::new();
    let mut k: u32 = 0;
    while k < max_new
        invariant
            k <= max_new,
            out@ == output_of(seed, k),
        decreases max_new - k,
    {
        out.push((splitmix64(seed ^ (k as u64)) % 30_000) as u32);
        k = k + 1;
        assert(out@ =~= output_of(seed, k));
    }
    out
}

impl CompletionGuard {
    /// How many blocks prompt and output have at most.
    pub open spec fn span(&self) -> nat {
        self@.prompt.len() + self@.output.len()
    }

    fn finish_prefill(&mut self, worker: &mut SimWorker)
        requires
            old(worker).wf(),
            old(self)@.wf(),
            old(worker).work() + old(self)@.chain.len() <= u64::MAX,
        ensures
            final(worker).wf(),
            final(worker)@ == old(worker)@.prefilled(old(self)@),
            final(self)@ == old(self)@.after_prefill(),
            final(worker).work() <= old(worker).work() + old(self)@.chain.len(),
    {
        if !self.prefill_done {
            let n: usize = self.chain.len();
            worker.kv.pin(slice_subrange(self.chain.as_slice(), self.pinned_blocks, n));
            proof {
                assert(self.chain@.subrange(self.pinned_blocks as int, n as int)
                    =~= self.chain@.skip(self.pinned_blocks as int));
            }
            self.prefill_done = true;
            self.pinned_blocks = n;
        }
    }

    /// Ends the request, whether it ran to its end or was given up: its claim
    /// and pins are released, and if prefill was done, prompt and output are
    /// cached.
    pub fn release(self, worker: &mut SimWorker)
        requires
            old(worker).wf(),
            self@.wf(),
            old(worker)@.params.block_size > 0,
            self.span() <= usize::MAX,
            old(worker).work() + self@.chain.len() + self.span() <= u64::MAX,
        ensures
            final(worker).wf(),
            final(worker)@ == old(worker)@.completed(self@),
            final(worker).work() <= old(worker).work() + self@.chain.len() + self.span(),
    {
        let block: usize = worker.params.block_size;
        worker.running = if worker.running < 1 {
            0
        } else {
            worker.running - 1
        };
        worker.running_tokens = if worker.running_tokens < self.private_tokens {
            0
        } else {
            worker.running_tokens - self.private_tokens
        };
        worker.kv.unpin(slice_subrange(self.chain.as_slice(), 0, self.pinned_blocks));
        proof {
            assert(self.chain@.subrange(0, self.pinned_blocks as int) =~= self.chain@.take(
                self.pinned_blocks as int,
            ));
        }
        if self.prefill_done {
            let ghost prompt = self.effective@;
            let mut full = self.effective;
            let mut output = self.output;
            let ghost output0 = output@;
            full.append(&mut output);
            let full_chain = chain_hashes(full.as_slice(), block);
            proof {
                assert(full@ =~= prompt + output0);
                blocks_fit(full@.len() as int, block as int);
            }
            worker.kv.insert_evictable(full_chain.as_slice());
        }
        let budget: u64 = if worker.params.kv_capacity_tokens < worker.running_tokens {
            0
        } else {
            worker.params.kv_capacity_tokens - worker.running_tokens
        };
        worker.kv.evict_to(budget, block);
    }
}

impl Admitted {
    /// Marks the prefill as done: only now other requests can match the rest of
    /// the prompt. It is pinned, since this request still decodes with it. Doing
    /// so twice changes nothing.
    pub fn finish_prefill(&mut self, worker: &mut SimWorker)
        requires
            old(worker).wf(),
            old(self).guard@.wf(),
            old(worker).work() + old(self).guard@.chain.len() <= u64::MAX,
        ensures
            final(worker).wf(),
            final(worker)@ == old(worker)@.prefilled(old(self).guard@),
            final(self).guard@ == old(self).guard@.after_prefill(),
            final(self).guard@.wf(),
            final(self).prompt_tokens == old(self).prompt_tokens,
            final(self).cached_tokens == old(self).cached_tokens,
            final(self).output_ids == old(self).output_ids,
            final(self).request_id == old(self).request_id,
            final(self).worker_port == old(self).worker_port,
            final(worker).work() <= old(worker).work() + old(self).guard@.chain.len(),
    {
        self.guard.finish_prefill(worker);
    }

    /// Ends the request.
    pub fn complete(self, worker: &mut SimWorker)
        requires
            old(worker).wf(),
            self.guard@.wf(),
            old(worker)@.params.block_size > 0,
            self.guard.span() <= usize::MAX,
            old(worker).work() + self.guard@.chain.len() + self.guard.span() <= u64::MAX,
        ensures
            final(worker).wf(),
            final(worker)@ == old(worker)@.completed(self.guard@),
            final(worker).work() <= old(worker).work() + self.guard@.chain.len()
                + self.guard.span(),
    {
        self.guard.release(worker);
    }
}

} // verus!
