//! An Ethereum chain specification for stateless validation: the chain, the activation
//! condition of each hardfork, the deposit contract and the blob parameters by hardfork.

use vstd::prelude::*;
use crate::bytes::{Address, Word};
use crate::entries::{distinct_keys, entries_map, lemma_entries_map_insert_at, lemma_entries_map_update};

verus! {

/// The Ethereum hardforks, in activation order.
#[derive(Clone, Copy, Debug, PartialEq, Eq, Structural)]
pub enum EthereumHardfork {
    /// Frontier.
    Frontier,
    /// Homestead.
    Homestead,
    /// The DAO fork.
    Dao,
    /// Tangerine Whistle.
    Tangerine,
    /// Spurious Dragon.
    SpuriousDragon,
    /// Byzantium.
    Byzantium,
    /// Constantinople.
    Constantinople,
    /// Petersburg.
    Petersburg,
    /// Istanbul.
    Istanbul,
    /// Muir Glacier.
    MuirGlacier,
    /// Berlin.
    Berlin,
    /// London.
    London,
    /// Arrow Glacier.
    ArrowGlacier,
    /// Gray Glacier.
    GrayGlacier,
    /// Paris, the merge.
    Paris,
    /// Shanghai.
    Shanghai,
    /// Cancun.
    Cancun,
    /// Prague.
    Prague,
    /// Osaka.
    Osaka,
    /// The first blob-parameter-only fork.
    Bpo1,
    /// The second blob-parameter-only fork.
    Bpo2,
    /// The third blob-parameter-only fork.
    Bpo3,
    /// The fourth blob-parameter-only fork.
    Bpo4,
    /// The fifth blob-parameter-only fork.
    Bpo5,
    /// Amsterdam.
    Amsterdam,
    /// Bogota.
    Bogota,
}

/// The position of a hardfork in activation order.
pub open spec fn hardfork_index(f: EthereumHardfork) -> int {
    match f {
        EthereumHardfork::Frontier => 0,
        EthereumHardfork::Homestead => 1,
        EthereumHardfork::Dao => 2,
        EthereumHardfork::Tangerine => 3,
        EthereumHardfork::SpuriousDragon => 4,
        EthereumHardfork::Byzantium => 5,
        EthereumHardfork::Constantinople => 6,
        EthereumHardfork::Petersburg => 7,
        EthereumHardfork::Istanbul => 8,
        EthereumHardfork::MuirGlacier => 9,
        EthereumHardfork::Berlin => 10,
        EthereumHardfork::London => 11,
        EthereumHardfork::ArrowGlacier => 12,
        EthereumHardfork::GrayGlacier => 13,
        EthereumHardfork::Paris => 14,
        EthereumHardfork::Shanghai => 15,
        EthereumHardfork::Cancun => 16,
        EthereumHardfork::Prague => 17,
        EthereumHardfork::Osaka => 18,
        EthereumHardfork::Bpo1 => 19,
        EthereumHardfork::Bpo2 => 20,
        EthereumHardfork::Bpo3 => 21,
        EthereumHardfork::Bpo4 => 22,
        EthereumHardfork::Bpo5 => 23,
        EthereumHardfork::Amsterdam => 24,
        EthereumHardfork::Bogota => 25,
    }
}

impl EthereumHardfork {
    /// The position of the hardfork in activation order.
    pub fn index(&self) -> (r: u8)
        ensures
            r == hardfork_index(*self),
    {
        match self {
            EthereumHardfork::Frontier => 0,
            EthereumHardfork::Homestead => 1,
            EthereumHardfork::Dao => 2,
            EthereumHardfork::Tangerine => 3,
            EthereumHardfork::SpuriousDragon => 4,
            EthereumHardfork::Byzantium => 5,
            EthereumHardfork::Constantinople => 6,
            EthereumHardfork::Petersburg => 7,
            EthereumHardfork::Istanbul => 8,
            EthereumHardfork::MuirGlacier => 9,
            EthereumHardfork::Berlin => 10,
            EthereumHardfork::London => 11,
            EthereumHardfork::ArrowGlacier => 12,
            EthereumHardfork::GrayGlacier => 13,
            EthereumHardfork::Paris => 14,
            EthereumHardfork::Shanghai => 15,
            EthereumHardfork::Cancun => 16,
            EthereumHardfork::Prague => 17,
            EthereumHardfork::Osaka => 18,
            EthereumHardfork::Bpo1 => 19,
            EthereumHardfork::Bpo2 => 20,
            EthereumHardfork::Bpo3 => 21,
            EthereumHardfork::Bpo4 => 22,
            EthereumHardfork::Bpo5 => 23,
            EthereumHardfork::Amsterdam => 24,
            EthereumHardfork::Bogota => 25,
        }
    }
}

/// Hardforks at the same position are the same hardfork.
pub proof fn lemma_hardfork_index_injective(a: EthereumHardfork, b: EthereumHardfork)
    ensures
        hardfork_index(a) == hardfork_index(b) ==> a == b,
{
}

/// When a hardfork activates.
#[derive(Clone, Copy, Debug)]
pub enum ForkCondition {
    /// At this block number.
    Block(u64),
    /// When the chain reaches a total difficulty.
    TTD {
        /// The block number at which the condition activated.
        activation_block_number: u64,
        /// The fork block number, if any.
        fork_block: Option<u64>,
        /// The total difficulty, a big-endian 256-bit word.
        total_difficulty: Word,
    },
    /// At this timestamp.
    Timestamp(u64),
    /// Never.
    Never,
}

impl ForkCondition {
    /// The condition activates at a timestamp no later than `timestamp`.
    pub open spec fn spec_active_at_timestamp(self, timestamp: u64) -> bool {
        self matches ForkCondition::Timestamp(t) && timestamp >= t
    }

    /// Whether the condition is a timestamp no later than `timestamp`.
    pub fn active_at_timestamp(&self, timestamp: u64) -> (r: bool)
        ensures
            r == self.spec_active_at_timestamp(timestamp),
    {
        match self {
            ForkCondition::Timestamp(t) => timestamp >= *t,
            _ => false,
        }
    }
}

impl Default for ForkCondition {
    /// A hardfork that is never activated.
    fn default() -> (r: Self)
        ensures
            r == ForkCondition::Never,
    {
        ForkCondition::Never
    }
}

/// A fork active at a timestamp stays active at every later timestamp.
pub proof fn lemma_active_at_timestamp_stays(c: ForkCondition, t1: u64, t2: u64)
    requires
        t1 <= t2,
        c.spec_active_at_timestamp(t1),
    ensures
        c.spec_active_at_timestamp(t2),
{
}

/// The parameters of blob gas pricing.
#[derive(Clone, Copy, Debug, PartialEq, Eq, Structural)]
pub struct BlobParams {
    /// The target number of blobs per block.
    pub target_blob_count: u64,
    /// The maximum number of blobs per block.
    pub max_blob_count: u64,
    /// The blob base fee update fraction.
    pub update_fraction: u128,
    /// The minimum blob base fee.
    pub min_blob_fee: u128,
    /// The maximum number of blobs per transaction.
    pub max_blobs_per_tx: u64,
    /// The blob base cost.
    pub blob_base_cost: u64,
}

/// The blob parameters of the blob-carrying hardforks, and the ones scheduled by timestamp
/// after Osaka.
#[derive(Debug)]
pub struct BlobScheduleBlobParams {
    /// The Cancun parameters.
    pub cancun: BlobParams,
    /// The Prague parameters.
    pub prague: BlobParams,
    /// The Osaka parameters.
    pub osaka: BlobParams,
    /// Parameters scheduled by activation timestamp, in the order they were configured.
    pub scheduled: Vec<(u64, BlobParams)>,
}

/// The last scheduled entry activated by `timestamp`, if any.
pub open spec fn last_active_scheduled(scheduled: Seq<(u64, BlobParams)>, timestamp: u64) -> Option<BlobParams>
    decreases scheduled.len(),
{
    if scheduled.len() == 0 {
        None
    } else if timestamp >= scheduled.last().0 {
        Some(scheduled.last().1)
    } else {
        last_active_scheduled(scheduled.drop_last(), timestamp)
    }
}

impl BlobScheduleBlobParams {
    /// The parameters of the last scheduled entry whose timestamp `timestamp` has reached.
    pub fn active_scheduled_params_at_timestamp(&self, timestamp: u64) -> (r: Option<BlobParams>)
        ensures
            r == last_active_scheduled(self.scheduled@, timestamp),
    {
        let mut i = self.scheduled.len();
        assert(self.scheduled@.take(i as int) =~= self.scheduled@);
        while i > 0
            invariant
                i <= self.scheduled@.len(),
                last_active_scheduled(self.scheduled@, timestamp) == last_active_scheduled(self.scheduled@.take(i as int), timestamp),
            decreases i,
        {
            let (ts, params) = self.scheduled[i - 1];
            proof {
                assert(self.scheduled@.take(i as int).last() == (ts, params));
                assert(self.scheduled@.take(i as int).drop_last() =~= self.scheduled@.take(i - 1));
            }
            if timestamp >= ts {
                return Some(params);
            }
            i = i - 1;
        }
        None
    }
}

/// The forks are listed in activation order, each once, as a map ordered by hardfork lists them.
pub open spec fn forks_ordered(forks: Seq<(EthereumHardfork, ForkCondition)>) -> bool {
    forall|i: int, j: int| #![trigger forks[i], forks[j]] 0 <= i < j < forks.len() ==> hardfork_index(forks[i].0) < hardfork_index(forks[j].0)
}

/// An Ethereum chain specification.
#[derive(Debug)]
pub struct ChainSpec {
    /// The chain id.
    pub chain: u64,
    /// The hardforks with their activation conditions, in activation order.
    pub forks: Vec<(EthereumHardfork, ForkCondition)>,
    /// The address of the deposit contract deployed for proof of stake.
    pub deposit_contract_address: Option<Address>,
    /// The blob parameters by hardfork.
    pub blob_params: BlobScheduleBlobParams,
}

impl ChainSpec {
    /// The forks are listed in activation order, each once.
    pub open spec fn wf(self) -> bool {
        forks_ordered(self.forks@)
    }

    /// The activation condition of each listed hardfork.
    pub open spec fn fork_map(self) -> Map<EthereumHardfork, ForkCondition> {
        entries_map(self.forks@)
    }

    /// The activation condition of a hardfork: the listed one, or never.
    pub open spec fn activation(self, fork: EthereumHardfork) -> ForkCondition {
        if self.fork_map().contains_key(fork) {
            self.fork_map()[fork]
        } else {
            ForkCondition::Never
        }
    }
}

/// Forks listed in activation order are listed once each.
pub proof fn lemma_forks_ordered_distinct(forks: Seq<(EthereumHardfork, ForkCondition)>)
    requires
        forks_ordered(forks),
    ensures
        distinct_keys(forks),
{
    assert forall|i: int, j: int| #![trigger forks[i], forks[j]] 0 <= i < j < forks.len() implies forks[i].0 != forks[j].0 by {
        assert(hardfork_index(forks[i].0) < hardfork_index(forks[j].0));
    }
}

/// Sets the activation condition of a hardfork in a list kept in activation order.
fn insert_fork(forks: &mut Vec<(EthereumHardfork, ForkCondition)>, fork: EthereumHardfork, condition: ForkCondition)
    requires
        forks_ordered(old(forks)@),
    ensures
        forks_ordered(final(forks)@),
        entries_map(final(forks)@) == entries_map(old(forks)@).insert(fork, condition),
{
    let ghost s0 = forks@;
    let k = fork.index();
    let mut p: usize = 0;
    while p < forks.len()
        invariant
            forks@ == s0,
            p <= s0.len(),
            k == hardfork_index(fork),
            forall|q: int| 0 <= q < p ==> hardfork_index((#[trigger] s0[q]).0) < k,
        ensures
            forks@ == s0,
            p <= s0.len(),
            forall|q: int| 0 <= q < p ==> hardfork_index((#[trigger] s0[q]).0) < k,
            p < s0.len() ==> hardfork_index(s0[p as int].0) >= k,
        decreases s0.len() - p,
    {
        if forks[p].0.index() >= k {
            break;
        }
        p = p + 1;
    }
    proof {
        lemma_forks_ordered_distinct(s0);
    }
    if p < forks.len() && forks[p].0.index() == k {
        proof {
            lemma_hardfork_index_injective(s0[p as int].0, fork);
            lemma_entries_map_update(s0, p as int, condition);
        }
        forks.set(p, (fork, condition));
        proof {
            assert(forks@ == s0.update(p as int, (s0[p as int].0, condition)));
            assert forall|i: int, j: int| #![trigger forks@[i], forks@[j]] 0 <= i < j < forks@.len() implies hardfork_index(forks@[i].0) < hardfork_index(forks@[j].0) by {
                assert(forks@[i].0 == s0[i].0 && forks@[j].0 == s0[j].0);
            }
        }
    } else {
        forks.insert(p, (fork, condition));
        proof {
            let t = s0.insert(p as int, (fork, condition));
            assert(forks@ == t);
            assert forall|i: int, j: int| #![trigger t[i], t[j]] 0 <= i < j < t.len() implies hardfork_index(t[i].0) < hardfork_index(t[j].0) by {
                if j < p {
                    assert(t[i] == s0[i] && t[j] == s0[j]);
                } else if j == p {
                    assert(t[i] == s0[i]);
                } else if i < p {
                    assert(t[i] == s0[i] && t[j] == s0[j - 1]);
                    assert(hardfork_index(s0[p as int].0) <= hardfork_index(s0[j - 1].0));
                } else if i == p {
                    assert(t[j] == s0[j - 1]);
                    assert(hardfork_index(s0[p as int].0) <= hardfork_index(s0[j - 1].0));
                } else {
                    assert(t[i] == s0[i - 1] && t[j] == s0[j - 1]);
                }
            }
            lemma_forks_ordered_distinct(t);
            lemma_entries_map_insert_at(s0, p as int, (fork, condition));
        }
    }
}

/// The blob parameters active at a timestamp: the last scheduled entry the timestamp has
/// reached, else those of the latest of Osaka, Prague and Cancun active at it, else none.
pub open spec fn blob_params_at(spec: ChainSpec, timestamp: u64) -> Option<BlobParams> {
    match last_active_scheduled(spec.blob_params.scheduled@, timestamp) {
        Some(p) => Some(p),
        None => if spec.activation(EthereumHardfork::Osaka).spec_active_at_timestamp(timestamp) {
            Some(spec.blob_params.osaka)
        } else if spec.activation(EthereumHardfork::Prague).spec_active_at_timestamp(timestamp) {
            Some(spec.blob_params.prague)
        } else if spec.activation(EthereumHardfork::Cancun).spec_active_at_timestamp(timestamp) {
            Some(spec.blob_params.cancun)
        } else {
            None
        },
    }
}

/// The scheduled blob parameters reached at a timestamp are those of the last entry, in
/// configured order, whose timestamp is at most it; there are none when no entry is reached.
pub proof fn lemma_last_active_scheduled(scheduled: Seq<(u64, BlobParams)>, timestamp: u64)
    ensures
        last_active_scheduled(scheduled, timestamp) is None <==> forall|i: int|
            0 <= i < scheduled.len() ==> (#[trigger] scheduled[i]).0 > timestamp,
        last_active_scheduled(scheduled, timestamp) matches Some(p) ==> exists|k: int|
            0 <= k < scheduled.len() && (#[trigger] scheduled[k]).0 <= timestamp && p == scheduled[k].1
                && forall|j: int| k < j < scheduled.len() ==> (#[trigger] scheduled[j]).0 > timestamp,
    decreases scheduled.len(),
{
    if scheduled.len() > 0 {
        let init = scheduled.drop_last();
        lemma_last_active_scheduled(init, timestamp);
        let n = scheduled.len() - 1;
        if timestamp >= scheduled[n].0 {
            assert(scheduled[n].0 <= timestamp);
        } else {
            assert forall|i: int| 0 <= i < init.len() implies #[trigger] scheduled[i] == init[i] by {}
            if let Some(p) = last_active_scheduled(init, timestamp) {
                let k = choose|k: int| 0 <= k < init.len() && (#[trigger] init[k]).0 <= timestamp && p == init[k].1
                    && forall|j: int| k < j < init.len() ==> (#[trigger] init[j]).0 > timestamp;
                assert(scheduled[k] == init[k]);
                assert forall|j: int| k < j < scheduled.len() implies (#[trigger] scheduled[j]).0 > timestamp by {
                    if j < n {
                        assert(scheduled[j] == init[j]);
                    }
                }
            } else {
                assert forall|i: int| 0 <= i < scheduled.len() implies (#[trigger] scheduled[i]).0 > timestamp by {
                    if i < n {
                        assert(scheduled[i] == init[i]);
                    }
                }
            }
        }
    }
}

/// The blob parameters at a timestamp follow the latest blob-carrying fork activated by
/// then: a reached scheduled entry wins; otherwise Osaka's parameters once Osaka's activation
/// timestamp is reached, Prague's once Prague's is reached and Osaka's is not, Cancun's once
/// only Cancun's is reached, and none before.
pub proof fn lemma_blob_params_latest_fork(spec: ChainSpec, timestamp: u64)
    ensures
        last_active_scheduled(spec.blob_params.scheduled@, timestamp) matches Some(p) ==> blob_params_at(spec, timestamp) == Some(p),
        last_active_scheduled(spec.blob_params.scheduled@, timestamp) is None ==> {
            let osaka = spec.activation(EthereumHardfork::Osaka) matches ForkCondition::Timestamp(t) && t <= timestamp;
            let prague = spec.activation(EthereumHardfork::Prague) matches ForkCondition::Timestamp(t) && t <= timestamp;
            let cancun = spec.activation(EthereumHardfork::Cancun) matches ForkCondition::Timestamp(t) && t <= timestamp;
            &&& osaka ==> blob_params_at(spec, timestamp) == Some(spec.blob_params.osaka)
            &&& !osaka && prague ==> blob_params_at(spec, timestamp) == Some(spec.blob_params.prague)
            &&& !osaka && !prague && cancun ==> blob_params_at(spec, timestamp) == Some(spec.blob_params.cancun)
            &&& !osaka && !prague && !cancun ==> blob_params_at(spec, timestamp) is None
        },
{
}

impl ChainSpec {
    /// A chain specification with the given forks, kept in activation order; a fork listed
    /// twice takes the later condition.
    pub fn new(
        chain: u64,
        forks: Vec<(EthereumHardfork, ForkCondition)>,
        deposit_contract_address: Option<Address>,
        blob_params: BlobScheduleBlobParams,
    ) -> (r: ChainSpec)
        ensures
            r.wf(),
            r.fork_map() == entries_map(forks@),
            r.chain == chain,
            r.deposit_contract_address == deposit_contract_address,
            r.blob_params == blob_params,
    {
        let mut ordered: Vec<(EthereumHardfork, ForkCondition)> = Vec::new();
        let mut i: usize = 0;
        proof {
            assert(forks@.take(0) =~= Seq::<(EthereumHardfork, ForkCondition)>::empty());
        }
        while i < forks.len()
            invariant
                i <= forks@.len(),
                forks_ordered(ordered@),
                entries_map(ordered@) == entries_map(forks@.take(i as int)),
            decreases forks@.len() - i,
        {
            let (f, c) = forks[i];
            insert_fork(&mut ordered, f, c);
            proof {
                assert(forks@.take(i + 1).drop_last() =~= forks@.take(i as int));
            }
            i = i + 1;
        }
        assert(forks@.take(forks@.len() as int) =~= forks@);
        ChainSpec { chain, forks: ordered, deposit_contract_address, blob_params }
    }

    /// The activation condition of an Ethereum hardfork: the listed one, or never.
    pub fn ethereum_fork_activation(&self, fork: EthereumHardfork) -> (r: ForkCondition)
        ensures
            r == self.activation(fork),
    {
        let mut i = self.forks.len();
        assert(self.forks@.take(i as int) =~= self.forks@);
        while i > 0
            invariant
                i <= self.forks@.len(),
                entries_map(self.forks@).contains_key(fork) == entries_map(self.forks@.take(i as int)).contains_key(fork),
                entries_map(self.forks@).contains_key(fork) ==> entries_map(self.forks@)[fork] == entries_map(
                    self.forks@.take(i as int),
                )[fork],
            decreases i,
        {
            let (f, c) = self.forks[i - 1];
            proof {
                assert(self.forks@.take(i as int).drop_last() =~= self.forks@.take(i - 1));
                assert(self.forks@.take(i as int).last() == (f, c));
            }
            if f == fork {
                return c;
            }
            i = i - 1;
        }
        ForkCondition::Never
    }

    /// The activation condition of a hardfork: an Ethereum hardfork's, and never for any other.
    pub fn fork(&self, ethereum_fork: Option<EthereumHardfork>) -> (r: ForkCondition)
        ensures
            r == match ethereum_fork {
                Some(f) => self.activation(f),
                None => ForkCondition::Never,
            },
    {
        match ethereum_fork {
            Some(f) => self.ethereum_fork_activation(f),
            None => ForkCondition::Never,
        }
    }

    /// The hardforks with their activation conditions, as listed.
    pub fn forks_iter(&self) -> (r: Vec<(EthereumHardfork, ForkCondition)>)
        ensures
            r@ == self.forks@,
    {
        let mut r: Vec<(EthereumHardfork, ForkCondition)> = Vec::new();
        let mut i: usize = 0;
        while i < self.forks.len()
            invariant
                i <= self.forks@.len(),
                r@ == self.forks@.take(i as int),
            decreases self.forks@.len() - i,
        {
            r.push(self.forks[i]);
            i = i + 1;
            assert(r@ =~= self.forks@.take(i as int));
        }
        assert(self.forks@.take(self.forks@.len() as int) =~= self.forks@);
        r
    }

    /// The chain id.
    pub fn chain(&self) -> (r: u64)
        ensures
            r == self.chain,
    {
        self.chain
    }

    /// The address of the deposit contract.
    pub fn deposit_contract_address(&self) -> (r: Option<Address>)
        ensures
            r == self.deposit_contract_address,
    {
        self.deposit_contract_address
    }

    /// The blob parameters active at a timestamp.
    pub fn blob_params_at_timestamp(&self, timestamp: u64) -> (r: Option<BlobParams>)
        ensures
            r == blob_params_at(*self, timestamp),
    {
        if let Some(p) = self.blob_params.active_scheduled_params_at_timestamp(timestamp) {
            Some(p)
        } else if self.ethereum_fork_activation(EthereumHardfork::Osaka).active_at_timestamp(timestamp) {
            Some(self.blob_params.osaka)
        } else if self.ethereum_fork_activation(EthereumHardfork::Prague).active_at_timestamp(timestamp) {
            Some(self.blob_params.prague)
        } else if self.ethereum_fork_activation(EthereumHardfork::Cancun).active_at_timestamp(timestamp) {
            Some(self.blob_params.cancun)
        } else {
            None
        }
    }

    /// The terminal total difficulty of the merge, when Paris activates by total difficulty.
    pub fn final_paris_total_difficulty(&self) -> (r: Option<Word>)
        ensures
            r == match self.activation(EthereumHardfork::Paris) {
                ForkCondition::TTD { total_difficulty, .. } => Some(total_difficulty),
                _ => None,
            },
    {
        match self.ethereum_fork_activation(EthereumHardfork::Paris) {
            ForkCondition::TTD { total_difficulty, .. } => Some(total_difficulty),
            _ => None,
        }
    }
}

} // verus!
