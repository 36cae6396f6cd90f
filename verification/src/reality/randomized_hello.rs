//! A hello that no table describes: every connection draws its suites, its
//! signature algorithms, its groups and its extensions anew.
//!
//! The draws are words of a generator. A weighted coin takes one word, a number
//! below a bound takes one and another for each that would bias it.
use crate::octets::to_vec;
use crate::random::random_u64;
use crate::reality::client_hello::{
    APPLICATION_SETTINGS_OLD, EC_POINT_FORMATS, EXTENDED_MASTER_SECRET, PSK_KEY_EXCHANGE_MODES,
    RENEGOTIATION_INFO, SESSION_TICKET, SIGNATURE_ALGORITHMS, SIGNED_CERTIFICATE_TIMESTAMP,
    STATUS_REQUEST,
};
use crate::reality::draw_laws::{
    enough_words_draw_a_hello, every_seed_draws_a_hello, lemma_all_spare, LARGEST_BOUND,
    WORDS_TAKEN,
};
use crate::reality::group::NamedGroup;
use crate::reality::hello_order::{splitmix_output, splitmix_step, SplitMix64};
use crate::reality::cipher_suite::CipherSuite;
use crate::reality::hello_profile::{
    advertised_groups, entry_groups, first_extension_complaint, first_share_complaint,
    first_suite_complaint, first_unadvertised, grease_slots, key_share_count, negotiable_suites,
    profile_verdict, shared_groups, suite_complaint, CipherSuiteSlot, ExtensionSlot, GroupSlot, HelloProfile, KeyShareSlot,
    ProfileShape, SlotShape, VersionSlot, TLS_1_0, TLS_1_1, TLS_1_2, TLS_1_3,
};
use crate::reality::hello_tables::{
    chrome_ech_grease, chrome_ech_payload_lens, chrome_ech_suites,
};
use crate::reality::table_fields::{length_prefixed, prefixed_points};
use vstd::prelude::*;
use vstd::slice::slice_to_vec;
use vstd::set_lib::{lemma_int_range, lemma_len_subset, set_int_range};

verus! {

/// The name that refusals give a drawn hello.
pub const PROFILE_NAME: &'static str = "randomized";

// The weight of a coin is the least 63-bit draw that it accepts: the least one
// whose quotient by 2^63 exceeds one minus the weight in double precision.

/// Weight 0.7.
pub const APPEND_ALPN: u64 = 2767011611056433409;

/// Weight 0.4.
pub const TLS_VERS_MAX_TLS13: u64 = 5534023222112865792;

/// Weight 0.63.
pub const APPEND_ECDSA_SHA1: u64 = 3412647653636267265;

/// Weight 0.59.
pub const APPEND_ECDSA_P521_SHA512: u64 = 3781582535110458625;

/// Weight 0.51.
pub const APPEND_PSS_SHA256: u64 = 4519452298058840321;

/// Weight 0.9.
pub const APPEND_PSS_SHA384_SHA512: u64 = 922337203685477441;

/// Weight 0.71.
pub const APPEND_X25519: u64 = 2674777890687885569;

/// Weight 0.46.
pub const APPEND_P521: u64 = 4980620899901579777;

/// Weight 0.62.
pub const APPEND_PADDING: u64 = 3504881374004815105;

/// Weight 0.74.
pub const APPEND_STATUS: u64 = 2398076729582242049;

/// Weight 0.46.
pub const APPEND_SCT: u64 = 4980620899901579777;

/// Weight 0.75.
pub const APPEND_RENEG: u64 = 2305843009213694209;

/// Weight 0.77.
pub const APPEND_EMS: u64 = 2121375568476598401;

/// Weight 0.25.
pub const FIRST_KEY_SHARE_P256: u64 = 6917529027641082369;

/// Weight 0.33.
pub const APPEND_ALPS: u64 = 6179659264692699649;

/// The weight of dropping the suite at each place but the first, out of
/// twenty-two: 0.4 times the place over twenty-two.
pub const REMOVE_RANDOM_CIPHERS: [u64; 21] = [
    9055674363457416704,
    8887976690060057089,
    8720279016662697472,
    8552581343265337857,
    8384883669867978240,
    8217185996470618625,
    8049488323073259008,
    7881790649675899393,
    7714092976278540801,
    7546395302881180161,
    7378697629483821569,
    7210999956086460929,
    7043302282689102337,
    6875604609291741697,
    6707906935894383105,
    6540209262497022465,
    6372511589099663873,
    6204813915702304256,
    6037116242304944641,
    5869418568907585024,
    5701720895510225409,
];

/// The TLS 1.3 suites.
pub const TLS13_CIPHER_SUITES: [u16; 3] = [0x1301, 0x1302, 0x1303];

/// The older suites, each with whether it is obsolete.
pub const LEGACY_CIPHER_SUITES: [(u16, bool); 22] = [
    (0xcca8, false),
    (0xcca9, false),
    (0xc02f, false),
    (0xc02b, false),
    (0xc030, false),
    (0xc02c, false),
    (0xc027, false),
    (0xc013, true),
    (0xc023, false),
    (0xc009, true),
    (0xc014, true),
    (0xc00a, true),
    (0x009c, false),
    (0x009d, false),
    (0x003c, false),
    (0x002f, true),
    (0x0035, true),
    (0xc012, true),
    (0x000a, true),
    (0x0005, true),
    (0xc011, true),
    (0xc007, true),
];

/// The RC4 suites, which TLS 1.3 forbids.
pub const RC4_CIPHER_SUITES: [u16; 3] = [0x0005, 0xc011, 0xc007];

/// What a draw comes to: a value, and the words that are left. Nothing where
/// the words run out.
pub type Drawn<T> = Option<(T, Seq<u64>)>;

/// A weighted coin.
pub open spec fn flipped(words: Seq<u64>, weight: u64) -> Drawn<bool> {
    if words.len() == 0 {
        None
    } else {
        Some((words[0] >> 1 >= weight, words.drop_first()))
    }
}

/// The words below which a draw would bias a number below `bound`.
pub open spec fn bias(bound: int) -> int {
    (u64::MAX - bound + 1) % bound
}

/// A number below `bound`.
pub open spec fn number_below(words: Seq<u64>, bound: int) -> Drawn<int>
    decreases words.len(),
{
    if words.len() == 0 {
        None
    } else if words[0] >= bias(bound) {
        Some((words[0] as int % bound, words.drop_first()))
    } else {
        number_below(words.drop_first(), bound)
    }
}

/// Two entries exchanged.
pub open spec fn exchanged<T>(values: Seq<T>, i: int, j: int) -> Seq<T> {
    values.update(i, values[j]).update(j, values[i])
}

/// A shuffle of the entries up to `index`, from there to the front.
pub open spec fn mixed<T>(values: Seq<T>, index: nat, words: Seq<u64>) -> Drawn<Seq<T>>
    decreases index,
{
    if index == 0 {
        Some((values, words))
    } else {
        match number_below(words, index as int + 1) {
            None => None,
            Some((target, rest)) => mixed(
                exchanged(values, index as int, target),
                (index - 1) as nat,
                rest,
            ),
        }
    }
}

/// A shuffle of all entries.
pub open spec fn shuffled_all<T>(values: Seq<T>, words: Seq<u64>) -> Drawn<Seq<T>> {
    mixed(
        values,
        if values.len() == 0 {
            0
        } else {
            (values.len() - 1) as nat
        },
        words,
    )
}

/// The first `n` steps of building a permutation of `len` places from the
/// inside out.
pub open spec fn permuted(len: nat, n: nat, words: Seq<u64>) -> Drawn<Seq<usize>>
    decreases n,
{
    if n <= 1 {
        Some((Seq::new(len, |i: int| 0usize), words))
    } else {
        match permuted(len, (n - 1) as nat, words) {
            None => None,
            Some((places, rest)) => match number_below(rest, n as int) {
                None => None,
                Some((target, left)) => Some(
                    (
                        places.update(n - 1, places[target]).update(target, (n - 1) as usize),
                        left,
                    ),
                ),
            },
        }
    }
}

/// The words of a generator that are not used up.
struct Draw<'r> {
    words: &'r [u64],
    at: usize,
}

impl<'r> View for Draw<'r> {
    type V = Seq<u64>;

    closed spec fn view(&self) -> Seq<u64> {
        self.words@.skip(self.at as int)
    }
}

impl<'r> Draw<'r> {
    #[verifier::type_invariant]
    closed spec fn inv(self) -> bool {
        self.at <= self.words@.len()
    }

    fn new(words: &'r [u64]) -> (draw: Draw<'r>)
        ensures
            draw@ == words@,
    {
        assert(words@.skip(0) =~= words@);
        Draw { words, at: 0 }
    }

    /// The next word.
    fn next(&mut self) -> (word: Option<u64>)
        ensures
            if old(self)@.len() == 0 {
                word is None && final(self)@ == old(self)@
            } else {
                word == Some(old(self)@[0]) && final(self)@ == old(self)@.drop_first()
            },
    {
        proof {
            use_type_invariant(&*self);
        }
        if self.at == self.words.len() {
            return None;
        }
        let word = self.words[self.at];
        self.at = self.at + 1;
        assert(self@ =~= old(self)@.drop_first());
        Some(word)
    }

    fn flip(&mut self, weight: u64) -> (face: Option<bool>)
        ensures
            match flipped(old(self)@, weight) {
                Some((expected, rest)) => face == Some(expected) && final(self)@ == rest,
                None => face is None,
            },
    {
        match self.next() {
            Some(word) => Some(word >> 1 >= weight),
            None => None,
        }
    }

    fn below(&mut self, bound: u64) -> (number: Option<u64>)
        requires
            bound > 0,
        ensures
            match number_below(old(self)@, bound as int) {
                Some((expected, rest)) => number matches Some(actual) && actual == expected
                    && final(self)@ == rest,
                None => number is None,
            },
            number matches Some(actual) ==> actual < bound,
    {
        let threshold = (u64::MAX - bound + 1) % bound;
        loop
            invariant
                bound > 0,
                threshold == bias(bound as int),
                number_below(old(self)@, bound as int) == number_below(self@, bound as int),
            decreases self@.len(),
        {
            match self.next() {
                None => {
                    return None;
                },
                Some(word) => {
                    if word >= threshold {
                        return Some(word % bound);
                    }
                },
            }
        }
    }

    fn shuffle<T: Copy>(&mut self, values: &mut Vec<T>) -> (done: bool)
        ensures
            match shuffled_all(old(values)@, old(self)@) {
                Some((expected, rest)) => done && final(values)@ == expected && final(self)@
                    == rest,
                None => !done,
            },
            final(values)@.len() == old(values)@.len(),
    {
        if values.len() == 0 {
            return true;
        }
        let mut index: usize = values.len() - 1;
        while index > 0
            invariant
                index < values.len(),
                values@.len() == old(values)@.len(),
                shuffled_all(old(values)@, old(self)@) == mixed(values@, index as nat, self@),
            decreases index,
        {
            let target = match self.below(index as u64 + 1) {
                Some(target) => target as usize,
                None => {
                    return false;
                },
            };
            let ghost before = values@;
            let first = values[index];
            let second = values[target];
            values.set(index, second);
            values.set(target, first);
            assert(values@ =~= exchanged(before, index as int, target as int));
            index = index - 1;
        }
        true
    }

    fn perm(&mut self, len: usize) -> (places: Option<Vec<usize>>)
        ensures
            match permuted(len as nat, len as nat, old(self)@) {
                Some((expected, rest)) => places matches Some(actual) && actual@ == expected
                    && final(self)@ == rest,
                None => places is None,
            },
            places matches Some(actual) ==> actual@.len() == len && forall|i: int|
                0 <= i < len ==> #[trigger] actual@[i] < len,
    {
        let mut places: Vec<usize> = vec![0usize; len];
        assert(places@ =~= Seq::new(len as nat, |i: int| 0usize));
        let mut index: usize = 1;
        while index < len
            invariant
                1 <= index,
                index == 1 || index <= len,
                places@.len() == len,
                forall|i: int| 0 <= i < len ==> #[trigger] places@[i] < index,
                permuted(len as nat, index as nat, old(self)@) == Some((places@, self@)),
            decreases len - index,
        {
            let target = match self.below(index as u64 + 1) {
                Some(target) => target as usize,
                None => {
                    proof {
                        lemma_permuted_none(
                            len as nat,
                            (index + 1) as nat,
                            len as nat,
                            old(self)@,
                        );
                    }
                    return None;
                },
            };
            let moved = places[target];
            places.set(index, moved);
            places.set(target, index);
            index = index + 1;
        }
        assert(permuted(len as nat, len as nat, old(self)@) == permuted(
            len as nat,
            index as nat,
            old(self)@,
        ));
        Some(places)
    }
}

proof fn lemma_permuted_none(len: nat, n: nat, m: nat, words: Seq<u64>)
    requires
        n <= m,
        permuted(len, n, words) is None,
    ensures
        permuted(len, m, words) is None,
    decreases m,
{
    if n < m {
        lemma_permuted_none(len, n, (m - 1) as nat, words);
    }
}

/// The extensions that a drawn hello may carry.
#[derive(Clone, Copy, Debug, PartialEq, Eq, Structural)]
pub enum Slot {
    ServerName,
    SessionTicket,
    SignatureAlgorithms,
    EcPointFormats,
    SupportedGroups,
    Alpn,
    StatusRequest,
    SignedCertificateTimestamp,
    RenegotiationInfo,
    ExtendedMasterSecret,
    KeyShare,
    PskKeyExchangeModes,
    SupportedVersions,
    ApplicationSettings,
    Padding,
}

/// Where an older suite stands in the order of a draw: behind every suite that
/// is not obsolete where it is, and else by its tag.
pub open spec fn suite_rank(tags: Seq<usize>, i: int) -> int {
    tags[i] + if LEGACY_CIPHER_SUITES@[i].1 {
        22int
    } else {
        0
    }
}

/// The first of the older suites from `i` on with this rank.
pub open spec fn ranked_from(tags: Seq<usize>, rank: int, i: int) -> Option<int>
    decreases 22 - i,
{
    if i >= 22 {
        None
    } else if suite_rank(tags, i) == rank {
        Some(i)
    } else {
        ranked_from(tags, rank, i + 1)
    }
}

/// Whether a suite is an RC4 suite.
pub open spec fn is_rc4(id: u16) -> bool {
    id == 0x0005 || id == 0xc011 || id == 0xc007
}

/// Whether a suite is a TLS 1.3 suite.
pub open spec fn is_tls13(id: u16) -> bool {
    id == 0x1301 || id == 0x1302 || id == 0x1303
}

/// The older suites of the first `n` ranks, in order, without RC4.
pub open spec fn ranked_suites(tags: Seq<usize>, n: nat) -> Seq<u16>
    decreases n,
{
    if n == 0 {
        Seq::empty()
    } else {
        let front = ranked_suites(tags, (n - 1) as nat);
        match ranked_from(tags, n - 1, 0) {
            Some(i) => if is_rc4(LEGACY_CIPHER_SUITES@[i].0) {
                front
            } else {
                front.push(LEGACY_CIPHER_SUITES@[i].0)
            },
            None => front,
        }
    }
}

fn rank_of(tags: &Vec<usize>, i: usize) -> (rank: usize)
    requires
        i < 22,
        tags@.len() == 22,
        tags@[i as int] < 22,
    ensures
        rank == suite_rank(tags@, i as int),
{
    let legacy = LEGACY_CIPHER_SUITES;
    if legacy[i].1 {
        tags[i] + 22
    } else {
        tags[i]
    }
}

/// The older suites without RC4 whose rank is below `n`.
spec fn below_rank(tags: Seq<usize>, n: int) -> Set<int> {
    set_int_range(0, 22).filter(
        |i: int| suite_rank(tags, i) < n && !is_rc4(LEGACY_CIPHER_SUITES@[i].0),
    )
}

proof fn lemma_ranked_from(tags: Seq<usize>, rank: int, i: int)
    requires
        0 <= i <= 22,
    ensures
        ranked_from(tags, rank, i) matches Some(j) ==> i <= j < 22 && suite_rank(tags, j) == rank,
    decreases 22 - i,
{
    if i < 22 {
        lemma_ranked_from(tags, rank, i + 1);
    }
}

proof fn lemma_ranked_count(tags: Seq<usize>, n: nat)
    ensures
        ranked_suites(tags, n).len() <= below_rank(tags, n as int).len(),
        forall|k: int|
            0 <= k < ranked_suites(tags, n).len() ==> is_legacy(
                #[trigger] ranked_suites(tags, n)[k],
            ),
    decreases n,
{
    lemma_int_range(0, 22);
    if n > 0 {
        lemma_ranked_count(tags, (n - 1) as nat);
        lemma_ranked_from(tags, n - 1, 0);
        let before = below_rank(tags, n - 1);
        let after = below_rank(tags, n as int);
        assert(before.subset_of(after));
        match ranked_from(tags, n - 1, 0) {
            Some(i) => {
                if !is_rc4(LEGACY_CIPHER_SUITES@[i].0) {
                    assert(after.contains(i) && !before.contains(i));
                    assert(before.insert(i).subset_of(after));
                    lemma_len_subset(before.insert(i), after);
                } else {
                    lemma_len_subset(before, after);
                }
            },
            None => {
                lemma_len_subset(before, after);
            },
        }
    }
}

/// Whether a suite is one of the older ones that a hello may carry.
pub open spec fn is_legacy(id: u16) -> bool {
    !is_rc4(id) && exists|i: int| 0 <= i < 22 && id == (#[trigger] LEGACY_CIPHER_SUITES@[i]).0
}

pub proof fn lemma_at_most_nineteen(tags: Seq<usize>)
    ensures
        ranked_suites(tags, 44).len() <= 19,
{
    lemma_ranked_count(tags, 44);
    lemma_int_range(0, 19);
    lemma_int_range(0, 22);
    let low = set_int_range(0, 19);
    assert(LEGACY_CIPHER_SUITES@[19].0 == 0x0005);
    assert(LEGACY_CIPHER_SUITES@[20].0 == 0xc011);
    assert(LEGACY_CIPHER_SUITES@[21].0 == 0xc007);
    assert(below_rank(tags, 44).subset_of(low));
    lemma_len_subset(below_rank(tags, 44), low);
}

fn rank_suites(tags: &Vec<usize>) -> (suites: Vec<u16>)
    requires
        tags@.len() == 22,
        forall|i: int| 0 <= i < 22 ==> #[trigger] tags@[i] < 22,
    ensures
        suites@ == ranked_suites(tags@, 44),
{
    let legacy = LEGACY_CIPHER_SUITES;
    let mut suites: Vec<u16> = Vec::new();
    for rank in 0..44usize
        invariant
            legacy == LEGACY_CIPHER_SUITES,
            tags@.len() == 22,
            forall|i: int| 0 <= i < 22 ==> #[trigger] tags@[i] < 22,
            suites@ == ranked_suites(tags@, rank as nat),
    {
        let mut i: usize = 0;
        while i < 22 && rank_of(tags, i) != rank
            invariant
                i <= 22,
                tags@.len() == 22,
                forall|j: int| 0 <= j < 22 ==> #[trigger] tags@[j] < 22,
                ranked_from(tags@, rank as int, 0) == ranked_from(tags@, rank as int, i as int),
            decreases 22 - i,
        {
            i = i + 1;
        }
        if i < 22 {
            let id = legacy[i].0;
            if id != 0x0005 && id != 0xc011 && id != 0xc007 {
                suites.push(id);
            }
        }
    }
    suites
}

/// The first `n` candidates without those that a coin drops: never the first
/// that is kept, and each later one the likelier the further back it would
/// stand.
pub open spec fn trimmed(candidates: Seq<u16>, n: nat, words: Seq<u64>) -> Drawn<Seq<u16>>
    decreases n,
{
    if n == 0 {
        Some((Seq::empty(), words))
    } else {
        match trimmed(candidates, (n - 1) as nat, words) {
            None => None,
            Some((kept, rest)) => if kept.len() == 0 {
                Some((kept.push(candidates[n - 1]), rest))
            } else {
                match flipped(rest, REMOVE_RANDOM_CIPHERS@[kept.len() - 1]) {
                    None => None,
                    Some((dropped, left)) => if dropped {
                        Some((kept, left))
                    } else {
                        Some((kept.push(candidates[n - 1]), left))
                    },
                }
            },
        }
    }
}

proof fn lemma_trimmed_none(candidates: Seq<u16>, n: nat, m: nat, words: Seq<u64>)
    requires
        n <= m,
        trimmed(candidates, n, words) is None,
    ensures
        trimmed(candidates, m, words) is None,
    decreases m,
{
    if n < m {
        lemma_trimmed_none(candidates, n, (m - 1) as nat, words);
    }
}

fn trim(draw: &mut Draw, candidates: &Vec<u16>) -> (kept: Option<Vec<u16>>)
    requires
        candidates@.len() <= 22,
    ensures
        match trimmed(candidates@, candidates@.len(), old(draw)@) {
            Some((expected, rest)) => kept matches Some(actual) && actual@ == expected && final(draw)@ == rest,
            None => kept is None,
        },
{
    let weights = REMOVE_RANDOM_CIPHERS;
    let mut kept: Vec<u16> = Vec::new();
    for i in 0..candidates.len()
        invariant
            candidates@.len() <= 22,
            weights == REMOVE_RANDOM_CIPHERS,
            kept@.len() <= i,
            trimmed(candidates@, i as nat, old(draw)@) == Some((kept@, draw@)),
    {
        let mut dropped = false;
        if kept.len() > 0 {
            match draw.flip(weights[kept.len() - 1]) {
                Some(face) => {
                    dropped = face;
                },
                None => {
                    proof {
                        lemma_trimmed_none(
                            candidates@,
                            (i + 1) as nat,
                            candidates@.len(),
                            old(draw)@,
                        );
                    }
                    return None;
                },
            }
        }
        if !dropped {
            kept.push(candidates[i]);
        }
    }
    Some(kept)
}

/// The slots of suites: TLS 1.3 ones can be negotiated, the others are
/// decoration.
pub open spec fn suite_slots_of(suites: Seq<u16>) -> Seq<CipherSuiteSlot> {
    Seq::new(
        suites.len(),
        |i: int|
            if is_tls13(suites[i]) {
                CipherSuiteSlot::Negotiable(suites[i])
            } else {
                CipherSuiteSlot::Decorative(suites[i])
            },
    )
}

/// The suites of a draw: the TLS 1.3 ones shuffled, the older ones in a random
/// order with the obsolete ones last, and some dropped.
pub open spec fn drawn_suites(words: Seq<u64>) -> Drawn<Seq<CipherSuiteSlot>> {
    match permuted(22, 22, words) {
        None => None,
        Some((tags, rest)) => match shuffled_all(TLS13_CIPHER_SUITES@, rest) {
            None => None,
            Some((tls13, left)) => {
                let candidates = tls13 + ranked_suites(tags, 44);
                match trimmed(candidates, candidates.len(), left) {
                    None => None,
                    Some((kept, last)) => Some((suite_slots_of(kept), last)),
                }
            },
        },
    }
}

fn draw_cipher_suites(draw: &mut Draw) -> (suites: Option<Vec<CipherSuiteSlot>>)
    ensures
        match drawn_suites(old(draw)@) {
            Some((expected, rest)) => suites matches Some(actual) && actual@ == expected && final(draw)@ == rest,
            None => suites is None,
        },
{
    let tags = match draw.perm(22) {
        Some(tags) => tags,
        None => {
            return None;
        },
    };
    let mut candidates: Vec<u16> = vec![0x1301u16, 0x1302u16, 0x1303u16];
    assert(candidates@ =~= TLS13_CIPHER_SUITES@);
    if !draw.shuffle(&mut candidates) {
        return None;
    }
    let ghost tls13 = candidates@;
    let mut legacy = rank_suites(&tags);
    proof {
        lemma_at_most_nineteen(tags@);
    }
    candidates.append(&mut legacy);
    assert(candidates@ =~= tls13 + ranked_suites(tags@, 44));
    let kept = match trim(draw, &candidates) {
        Some(kept) => kept,
        None => {
            return None;
        },
    };
    let mut suites: Vec<CipherSuiteSlot> = Vec::new();
    for i in 0..kept.len()
        invariant
            suites@.len() == i,
            forall|j: int| 0 <= j < i ==> #[trigger] suites@[j] == suite_slots_of(kept@)[j],
    {
        let id = kept[i];
        if id == 0x1301 || id == 0x1302 || id == 0x1303 {
            suites.push(CipherSuiteSlot::Negotiable(id));
        } else {
            suites.push(CipherSuiteSlot::Decorative(id));
        }
    }
    assert(suites@ =~= suite_slots_of(kept@));
    Some(suites)
}

/// A drawn list with an entry where a coin said so.
pub open spec fn with_if<T>(values: Seq<T>, face: bool, value: T) -> Seq<T> {
    if face {
        values.push(value)
    } else {
        values
    }
}

fn push_if<T: Copy>(values: &mut Vec<T>, face: bool, value: T)
    ensures
        final(values)@ == with_if(old(values)@, face, value),
{
    if face {
        values.push(value);
    }
}

/// The faces of coins in a row.
pub open spec fn flips(words: Seq<u64>, weights: Seq<u64>) -> Drawn<Seq<bool>>
    decreases weights.len(),
{
    if weights.len() == 0 {
        Some((Seq::empty(), words))
    } else {
        match flips(words, weights.drop_last()) {
            None => None,
            Some((faces, rest)) => match flipped(rest, weights.last()) {
                None => None,
                Some((face, left)) => Some((faces.push(face), left)),
            },
        }
    }
}

proof fn lemma_flips_none(words: Seq<u64>, weights: Seq<u64>, n: int)
    requires
        0 <= n <= weights.len(),
        flips(words, weights.take(n)) is None,
    ensures
        flips(words, weights) is None,
    decreases weights.len(),
{
    if n == weights.len() {
        assert(weights.take(n) =~= weights);
    } else {
        assert(weights.drop_last().take(n) =~= weights.take(n));
        lemma_flips_none(words, weights.drop_last(), n);
    }
}

fn flip_all(draw: &mut Draw, weights: &[u64]) -> (faces: Option<Vec<bool>>)
    ensures
        match flips(old(draw)@, weights@) {
            Some((expected, rest)) => faces matches Some(actual) && actual@ == expected && final(draw)@ == rest,
            None => faces is None,
        },
        faces matches Some(actual) ==> actual@.len() == weights@.len(),
{
    let mut faces: Vec<bool> = Vec::new();
    assert(weights@.take(0) =~= Seq::<u64>::empty());
    for i in 0..weights.len()
        invariant
            faces@.len() == i,
            flips(old(draw)@, weights@.take(i as int)) == Some((faces@, draw@)),
    {
        proof {
            assert(weights@.take(i + 1).drop_last() =~= weights@.take(i as int));
        }
        match draw.flip(weights[i]) {
            Some(face) => {
                faces.push(face);
            },
            None => {
                proof {
                    lemma_flips_none(old(draw)@, weights@, i + 1);
                }
                return None;
            },
        }
    }
    assert(weights@.take(weights@.len() as int) =~= weights@);
    Some(faces)
}

/// The signature algorithms that every draw has.
pub open spec fn base_schemes() -> Seq<u16> {
    seq![0x0403u16, 0x0401u16, 0x0503u16, 0x0501u16, 0x0201u16, 0x0601u16]
}

/// RSA-PSS with SHA-256, which TLS 1.3 makes mandatory.
pub const PSS_RSAE_SHA256: u16 = 0x0804;

/// The weights of the optional signature algorithms. The coin for PSS is
/// thrown and not looked at.
pub open spec fn scheme_weights() -> Seq<u64> {
    seq![
        APPEND_ECDSA_SHA1,
        APPEND_ECDSA_P521_SHA512,
        APPEND_PSS_SHA256,
        APPEND_PSS_SHA384_SHA512,
    ]
}

/// The signature algorithms that four coins leave.
pub open spec fn chosen_schemes(faces: Seq<bool>) -> Seq<u16> {
    let first = with_if(base_schemes(), faces[0], 0x0203u16);
    let second = with_if(first, faces[1], 0x0603u16).push(PSS_RSAE_SHA256);
    with_if(with_if(second, faces[3], 0x0805u16), faces[3], 0x0806u16)
}

/// The body of the signature algorithms extension of a draw.
pub open spec fn drawn_schemes(words: Seq<u64>) -> Drawn<Seq<u8>> {
    match flips(words, scheme_weights()) {
        None => None,
        Some((faces, rest)) => match shuffled_all(chosen_schemes(faces), rest) {
            None => None,
            Some((schemes, left)) => Some((prefixed_points(schemes), left)),
        },
    }
}

fn draw_signature_algorithms(draw: &mut Draw) -> (body: Option<Vec<u8>>)
    ensures
        match drawn_schemes(old(draw)@) {
            Some((expected, rest)) => body matches Some(actual) && actual@ == expected && final(draw)@ == rest,
            None => body is None,
        },
{
    let weights: [u64; 4] = [
        APPEND_ECDSA_SHA1,
        APPEND_ECDSA_P521_SHA512,
        APPEND_PSS_SHA256,
        APPEND_PSS_SHA384_SHA512,
    ];
    assert(weights@ =~= scheme_weights());
    let faces = match flip_all(draw, weights.as_slice()) {
        Some(faces) => faces,
        None => {
            return None;
        },
    };
    let mut schemes: Vec<u16> = vec![
        0x0403u16,
        0x0401u16,
        0x0503u16,
        0x0501u16,
        0x0201u16,
        0x0601u16,
    ];
    assert(schemes@ =~= base_schemes());
    push_if(&mut schemes, faces[0], 0x0203);
    push_if(&mut schemes, faces[1], 0x0603);
    schemes.push(PSS_RSAE_SHA256);
    push_if(&mut schemes, faces[3], 0x0805);
    push_if(&mut schemes, faces[3], 0x0806);
    if !draw.shuffle(&mut schemes) {
        return None;
    }
    Some(length_prefixed(&schemes))
}

/// The weights of the groups. The coin for X25519 is thrown and not looked at.
pub open spec fn group_weights() -> Seq<u64> {
    seq![APPEND_X25519, APPEND_P521]
}

/// The groups that two coins leave: X25519 first, then P-256 and P-384, then
/// perhaps P-521.
pub open spec fn chosen_groups(faces: Seq<bool>) -> Seq<GroupSlot> {
    with_if(
        seq![
            GroupSlot::Group(NamedGroup::X25519),
            GroupSlot::Group(NamedGroup::Secp256r1),
            GroupSlot::Group(NamedGroup::Secp384r1),
        ],
        faces[1],
        GroupSlot::Group(NamedGroup::Secp521r1),
    )
}

/// The groups of a draw.
pub open spec fn drawn_groups(words: Seq<u64>) -> Drawn<Seq<GroupSlot>> {
    match flips(words, group_weights()) {
        None => None,
        Some((faces, rest)) => Some((chosen_groups(faces), rest)),
    }
}

fn draw_supported_groups(draw: &mut Draw) -> (groups: Option<Vec<GroupSlot>>)
    ensures
        match drawn_groups(old(draw)@) {
            Some((expected, rest)) => groups matches Some(actual) && actual@ == expected && final(draw)@ == rest,
            None => groups is None,
        },
{
    let weights: [u64; 2] = [APPEND_X25519, APPEND_P521];
    assert(weights@ =~= group_weights());
    match flip_all(draw, weights.as_slice()) {
        None => None,
        Some(faces) => {
            let mut groups: Vec<GroupSlot> = vec![
                GroupSlot::Group(NamedGroup::X25519),
                GroupSlot::Group(NamedGroup::Secp256r1),
                GroupSlot::Group(NamedGroup::Secp384r1),
            ];
            assert(groups@ =~= seq![
                GroupSlot::Group(NamedGroup::X25519),
                GroupSlot::Group(NamedGroup::Secp256r1),
                GroupSlot::Group(NamedGroup::Secp384r1),
            ]);
            push_if(&mut groups, faces[1], GroupSlot::Group(NamedGroup::Secp521r1));
            Some(groups)
        },
    }
}

/// The weights of the layout: the coins for the first key share and for padding
/// are thrown and not looked at.
pub open spec fn layout_weights() -> Seq<u64> {
    seq![
        FIRST_KEY_SHARE_P256,
        APPEND_PADDING,
        APPEND_STATUS,
        APPEND_SCT,
        APPEND_RENEG,
        APPEND_EMS,
    ]
}

/// The extensions that the coins leave, before they are shuffled.
pub open spec fn chosen_slots(with_alpn: bool, faces: Seq<bool>, with_alps: bool) -> Seq<Slot> {
    let base = seq![
        Slot::ServerName,
        Slot::SessionTicket,
        Slot::SignatureAlgorithms,
        Slot::EcPointFormats,
        Slot::SupportedGroups,
    ];
    let padded = with_if(base, with_alpn, Slot::Alpn).push(Slot::Padding);
    let status = with_if(padded, faces[2], Slot::StatusRequest);
    let sct = with_if(status, faces[3], Slot::SignedCertificateTimestamp);
    let reneg = with_if(sct, faces[4], Slot::RenegotiationInfo);
    let ems = with_if(reneg, faces[5], Slot::ExtendedMasterSecret);
    with_if(
        ems.push(Slot::KeyShare).push(Slot::PskKeyExchangeModes).push(Slot::SupportedVersions),
        with_alps,
        Slot::ApplicationSettings,
    )
}

/// The first place of the padding slot from `i` on.
pub open spec fn padding_from(slots: Seq<Slot>, i: int) -> int
    decreases slots.len() - i,
{
    if i >= slots.len() || slots[i] == Slot::Padding {
        i
    } else {
        padding_from(slots, i + 1)
    }
}

/// The slots with padding moved to the end.
pub open spec fn padding_last(slots: Seq<Slot>) -> Seq<Slot> {
    let at = padding_from(slots, 0);
    if at >= slots.len() {
        slots
    } else {
        slots.remove(at).push(Slot::Padding)
    }
}

/// The layout of a draw: application settings only beside ALPN, everything
/// shuffled, padding last.
pub open spec fn drawn_layout(with_alpn: bool, words: Seq<u64>) -> Drawn<Seq<Slot>> {
    match flips(words, layout_weights()) {
        None => None,
        Some((faces, rest)) => if with_alpn {
            match flipped(rest, APPEND_ALPS) {
                None => None,
                Some((with_alps, left)) => finished_layout(
                    chosen_slots(with_alpn, faces, with_alps),
                    left,
                ),
            }
        } else {
            finished_layout(chosen_slots(with_alpn, faces, false), rest)
        },
    }
}

/// The chosen slots, shuffled and with padding last.
pub open spec fn finished_layout(slots: Seq<Slot>, words: Seq<u64>) -> Drawn<Seq<Slot>> {
    match shuffled_all(slots, words) {
        None => None,
        Some((layout, rest)) => Some((padding_last(layout), rest)),
    }
}

fn move_padding_last(layout: &mut Vec<Slot>)
    ensures
        final(layout)@ == padding_last(old(layout)@),
{
    let mut at: usize = 0;
    while at < layout.len() && layout[at] != Slot::Padding
        invariant
            at <= layout@.len(),
            layout@ == old(layout)@,
            padding_from(layout@, 0) == padding_from(layout@, at as int),
        decreases layout.len() - at,
    {
        at = at + 1;
    }
    if at < layout.len() {
        let padding = layout.remove(at);
        layout.push(padding);
    }
}

fn draw_layout(draw: &mut Draw, with_alpn: bool) -> (layout: Option<Vec<Slot>>)
    ensures
        match drawn_layout(with_alpn, old(draw)@) {
            Some((expected, rest)) => layout matches Some(actual) && actual@ == expected
                && final(draw)@ == rest,
            None => layout is None,
        },
{
    let weights: [u64; 6] = [
        FIRST_KEY_SHARE_P256,
        APPEND_PADDING,
        APPEND_STATUS,
        APPEND_SCT,
        APPEND_RENEG,
        APPEND_EMS,
    ];
    assert(weights@ =~= layout_weights());
    let faces = match flip_all(draw, weights.as_slice()) {
        Some(faces) => faces,
        None => {
            return None;
        },
    };
    let mut with_alps = false;
    if with_alpn {
        match draw.flip(APPEND_ALPS) {
            Some(face) => {
                with_alps = face;
            },
            None => {
                return None;
            },
        }
    }
    let mut layout: Vec<Slot> = vec![
        Slot::ServerName,
        Slot::SessionTicket,
        Slot::SignatureAlgorithms,
        Slot::EcPointFormats,
        Slot::SupportedGroups,
    ];
    assert(layout@ =~= seq![
        Slot::ServerName,
        Slot::SessionTicket,
        Slot::SignatureAlgorithms,
        Slot::EcPointFormats,
        Slot::SupportedGroups,
    ]);
    push_if(&mut layout, with_alpn, Slot::Alpn);
    layout.push(Slot::Padding);
    push_if(&mut layout, faces[2], Slot::StatusRequest);
    push_if(&mut layout, faces[3], Slot::SignedCertificateTimestamp);
    push_if(&mut layout, faces[4], Slot::RenegotiationInfo);
    push_if(&mut layout, faces[5], Slot::ExtendedMasterSecret);
    layout.push(Slot::KeyShare);
    layout.push(Slot::PskKeyExchangeModes);
    layout.push(Slot::SupportedVersions);
    push_if(&mut layout, with_alps, Slot::ApplicationSettings);
    assert(layout@ == chosen_slots(with_alpn, faces@, with_alps));
    if !draw.shuffle(&mut layout) {
        return None;
    }
    move_padding_last(&mut layout);
    Some(layout)
}

/// A drawn hello.
pub struct RandomizedHello {
    pub cipher_suites: Vec<CipherSuiteSlot>,
    pub signature_algorithms_body: Vec<u8>,
    pub supported_groups: Vec<GroupSlot>,
    pub key_shares: Vec<KeyShareSlot>,
    pub layout: Vec<Slot>,
}

/// What a drawn hello holds.
pub struct RandomShape {
    pub cipher_suites: Seq<CipherSuiteSlot>,
    pub signature_algorithms_body: Seq<u8>,
    pub supported_groups: Seq<GroupSlot>,
    pub key_shares: Seq<KeyShareSlot>,
    pub layout: Seq<Slot>,
}

impl View for RandomizedHello {
    type V = RandomShape;

    open spec fn view(&self) -> RandomShape {
        RandomShape {
            cipher_suites: self.cipher_suites@,
            signature_algorithms_body: self.signature_algorithms_body@,
            supported_groups: self.supported_groups@,
            key_shares: self.key_shares@,
            layout: self.layout@,
        }
    }
}

/// The only key share of a drawn hello: the one that the server derives the
/// authentication key from.
pub open spec fn plain_share() -> Seq<KeyShareSlot> {
    seq![KeyShareSlot::Group(NamedGroup::X25519)]
}

/// The weights that a draw starts with. The coin for the version is thrown and
/// not looked at.
pub open spec fn first_weights() -> Seq<u64> {
    seq![APPEND_ALPN, TLS_VERS_MAX_TLS13]
}

/// The hello that words draw.
pub open spec fn drawn_hello(words: Seq<u64>) -> Drawn<RandomShape> {
    match flips(words, first_weights()) {
        None => None,
        Some((faces, after_coins)) => match drawn_suites(after_coins) {
            None => None,
            Some((cipher_suites, after_suites)) => match drawn_schemes(after_suites) {
                None => None,
                Some((signature_algorithms_body, after_schemes)) => match drawn_groups(
                    after_schemes,
                ) {
                    None => None,
                    Some((supported_groups, after_groups)) => match drawn_layout(
                        faces[0],
                        after_groups,
                    ) {
                        None => None,
                        Some((layout, rest)) => Some(
                            (
                                RandomShape {
                                    cipher_suites,
                                    signature_algorithms_body,
                                    supported_groups,
                                    key_shares: plain_share(),
                                    layout,
                                },
                                rest,
                            ),
                        ),
                    },
                },
            },
        },
    }
}

/// The versions of a drawn hello.
pub open spec fn random_versions() -> Seq<VersionSlot> {
    seq![
        VersionSlot::Version(TLS_1_3),
        VersionSlot::Version(TLS_1_2),
        VersionSlot::Version(TLS_1_1),
        VersionSlot::Version(TLS_1_0),
    ]
}

/// The extension that a slot of a drawn hello stands for.
pub open spec fn encoded(hello: RandomShape, slot: Slot) -> SlotShape {
    match slot {
        Slot::ServerName => SlotShape::ServerName,
        Slot::SessionTicket => SlotShape::Constant {
            extension_type: SESSION_TICKET,
            body: Seq::empty(),
        },
        Slot::SignatureAlgorithms => SlotShape::Constant {
            extension_type: SIGNATURE_ALGORITHMS,
            body: hello.signature_algorithms_body,
        },
        Slot::EcPointFormats => SlotShape::Constant {
            extension_type: EC_POINT_FORMATS,
            body: seq![1u8, 0u8],
        },
        Slot::SupportedGroups => SlotShape::SupportedGroups(hello.supported_groups),
        Slot::Alpn => SlotShape::Alpn,
        Slot::StatusRequest => SlotShape::Constant {
            extension_type: STATUS_REQUEST,
            body: seq![1u8, 0u8, 0u8, 0u8, 0u8],
        },
        Slot::SignedCertificateTimestamp => SlotShape::Constant {
            extension_type: SIGNED_CERTIFICATE_TIMESTAMP,
            body: Seq::empty(),
        },
        Slot::RenegotiationInfo => SlotShape::Constant {
            extension_type: RENEGOTIATION_INFO,
            body: seq![0u8],
        },
        Slot::ExtendedMasterSecret => SlotShape::Constant {
            extension_type: EXTENDED_MASTER_SECRET,
            body: Seq::empty(),
        },
        Slot::KeyShare => SlotShape::KeyShare(hello.key_shares),
        Slot::PskKeyExchangeModes => SlotShape::Constant {
            extension_type: PSK_KEY_EXCHANGE_MODES,
            body: seq![1u8, 1u8],
        },
        Slot::SupportedVersions => SlotShape::SupportedVersions(random_versions()),
        Slot::ApplicationSettings => SlotShape::Constant {
            extension_type: APPLICATION_SETTINGS_OLD,
            body: seq![0u8, 3u8, 2u8, 104u8, 50u8],
        },
        Slot::Padding => SlotShape::Padding,
    }
}

/// The profile of a drawn hello.
pub open spec fn random_profile(hello: RandomShape) -> ProfileShape {
    ProfileShape {
        name: PROFILE_NAME@,
        cipher_suites: hello.cipher_suites,
        extensions: Seq::new(hello.layout.len(), |i: int| encoded(hello, hello.layout[i])),
        permute_extensions: false,
        ech_suites: chrome_ech_suites(),
        ech_payload_lens: chrome_ech_payload_lens(),
        reuse_classical_key_share: false,
    }
}

fn constant_slot(extension_type: u16, body: &[u8]) -> (slot: ExtensionSlot)
    ensures
        slot@ == (SlotShape::Constant { extension_type, body: body@ }),
{
    ExtensionSlot::Constant { extension_type, body: to_vec(body) }
}

impl RandomizedHello {
    /// Draw a hello from the words of a generator, where they suffice.
    pub fn draw(words: &[u64]) -> (hello: Option<RandomizedHello>)
        ensures
            match drawn_hello(words@) {
                Some((shape, _)) => hello matches Some(actual) && actual@ == shape,
                None => hello is None,
            },
    {
        let mut draw = Draw::new(words);
        let weights: [u64; 2] = [APPEND_ALPN, TLS_VERS_MAX_TLS13];
        assert(weights@ =~= first_weights());
        let faces = match flip_all(&mut draw, weights.as_slice()) {
            Some(faces) => faces,
            None => {
                return None;
            },
        };
        let cipher_suites = match draw_cipher_suites(&mut draw) {
            Some(suites) => suites,
            None => {
                return None;
            },
        };
        let signature_algorithms_body = match draw_signature_algorithms(&mut draw) {
            Some(body) => body,
            None => {
                return None;
            },
        };
        let supported_groups = match draw_supported_groups(&mut draw) {
            Some(groups) => groups,
            None => {
                return None;
            },
        };
        let layout = match draw_layout(&mut draw, faces[0]) {
            Some(layout) => layout,
            None => {
                return None;
            },
        };
        let key_shares: Vec<KeyShareSlot> = vec![KeyShareSlot::Group(NamedGroup::X25519)];
        assert(key_shares@ =~= plain_share());
        Some(
            RandomizedHello {
                cipher_suites,
                signature_algorithms_body,
                supported_groups,
                key_shares,
                layout,
            },
        )
    }

    /// Draw a hello from the thread's generator. Nothing is claimed of which
    /// one, but that it is what some words draw.
    pub fn random() -> (hello: RandomizedHello)
        ensures
            exists|words: Seq<u64>|
                (#[trigger] drawn_hello(words)) matches Some((shape, _)) && hello@ == shape,
    {
        let mut words: Vec<u64> = Vec::new();
        for i in 0..WORDS_TAKEN
            invariant
                words@.len() == i,
                forall|j: int| 0 <= j < i ==> #[trigger] words@[j] >= LARGEST_BOUND,
        {
            words.push(unbiased_word());
        }
        proof {
            lemma_all_spare(words@);
            enough_words_draw_a_hello(words@);
        }
        Self::draw(words.as_slice()).unwrap()
    }

    /// Draw the hello of a seed.
    pub fn seeded(seed: u64) -> (hello: RandomizedHello)
        ensures
            drawn_hello(seeded_words(seed)) matches Some((shape, _)) && hello@ == shape,
    {
        let words = SeededDraws::new(seed).words(DRAW_WORDS);
        proof {
            assert(words@ =~= seeded_words(seed));
            every_seed_draws_a_hello(seed);
        }
        Self::draw(words.as_slice()).unwrap()
    }

    /// The profile that the hello is written from.
    pub fn with_profile(&self) -> (profile: HelloProfile)
        ensures
            profile@ == random_profile(self@),
    {
        let mut extensions: Vec<ExtensionSlot> = Vec::new();
        for i in 0..self.layout.len()
            invariant
                extensions@.len() == i,
                forall|j: int|
                    0 <= j < i ==> (#[trigger] extensions@[j])@ == encoded(
                        self@,
                        self@.layout[j],
                    ),
        {
            extensions.push(self.encode(self.layout[i]));
        }
        let profile = HelloProfile {
            name: PROFILE_NAME,
            cipher_suites: slice_to_vec(self.cipher_suites.as_slice()),
            extensions,
            permute_extensions: false,
            ech_grease: chrome_ech_grease(),
            reuse_classical_key_share: false,
        };
        assert(profile@.extensions =~= random_profile(self@).extensions);
        profile
    }

    fn encode(&self, slot: Slot) -> (extension: ExtensionSlot)
        ensures
            extension@ == encoded(self@, slot),
    {
        match slot {
            Slot::ServerName => ExtensionSlot::ServerName,
            Slot::SessionTicket => {
                let body: [u8; 0] = [];
                assert(body@ =~= Seq::<u8>::empty());
                constant_slot(SESSION_TICKET, body.as_slice())
            },
            Slot::SignatureAlgorithms => constant_slot(
                SIGNATURE_ALGORITHMS,
                self.signature_algorithms_body.as_slice(),
            ),
            Slot::EcPointFormats => {
                let body: [u8; 2] = [1, 0];
                assert(body@ =~= seq![1u8, 0u8]);
                constant_slot(EC_POINT_FORMATS, body.as_slice())
            },
            Slot::SupportedGroups => ExtensionSlot::SupportedGroups(
                slice_to_vec(self.supported_groups.as_slice()),
            ),
            Slot::Alpn => ExtensionSlot::Alpn,
            Slot::StatusRequest => {
                let body: [u8; 5] = [1, 0, 0, 0, 0];
                assert(body@ =~= seq![1u8, 0u8, 0u8, 0u8, 0u8]);
                constant_slot(STATUS_REQUEST, body.as_slice())
            },
            Slot::SignedCertificateTimestamp => {
                let body: [u8; 0] = [];
                assert(body@ =~= Seq::<u8>::empty());
                constant_slot(SIGNED_CERTIFICATE_TIMESTAMP, body.as_slice())
            },
            Slot::RenegotiationInfo => {
                let body: [u8; 1] = [0];
                assert(body@ =~= seq![0u8]);
                constant_slot(RENEGOTIATION_INFO, body.as_slice())
            },
            Slot::ExtendedMasterSecret => {
                let body: [u8; 0] = [];
                assert(body@ =~= Seq::<u8>::empty());
                constant_slot(EXTENDED_MASTER_SECRET, body.as_slice())
            },
            Slot::KeyShare => ExtensionSlot::KeyShare(slice_to_vec(self.key_shares.as_slice())),
            Slot::PskKeyExchangeModes => {
                let body: [u8; 2] = [1, 1];
                assert(body@ =~= seq![1u8, 1u8]);
                constant_slot(PSK_KEY_EXCHANGE_MODES, body.as_slice())
            },
            Slot::SupportedVersions => {
                let versions: Vec<VersionSlot> = vec![
                    VersionSlot::Version(TLS_1_3),
                    VersionSlot::Version(TLS_1_2),
                    VersionSlot::Version(TLS_1_1),
                    VersionSlot::Version(TLS_1_0),
                ];
                assert(versions@ =~= random_versions());
                ExtensionSlot::SupportedVersions(versions)
            },
            Slot::ApplicationSettings => {
                let body: [u8; 5] = [0, 3, 2, 104, 50];
                assert(body@ =~= seq![0u8, 3u8, 2u8, 104u8, 50u8]);
                constant_slot(APPLICATION_SETTINGS_OLD, body.as_slice())
            },
            Slot::Padding => ExtensionSlot::Padding,
        }
    }
}

/// How often a word that would bias a number is drawn anew.
const MAX_REDRAWS: usize = 64;

/// A fresh word that biases no number of a draw. One that would is drawn anew,
/// and moved out of the way where the generator gives nothing else.
fn unbiased_word() -> (word: u64)
    ensures
        word >= LARGEST_BOUND,
{
    let mut word = random_u64();
    let mut redraws: usize = 0;
    while word < LARGEST_BOUND && redraws < MAX_REDRAWS
        decreases MAX_REDRAWS - redraws,
    {
        word = random_u64();
        redraws = redraws + 1;
    }
    if word < LARGEST_BOUND {
        word + LARGEST_BOUND
    } else {
        word
    }
}

/// How many words of a seed a draw is given.
pub const DRAW_WORDS: usize = 512;

/// The words of a seed that a draw is given.
pub open spec fn seeded_words(seed: u64) -> Seq<u64> {
    Seq::new(DRAW_WORDS as nat, |i: int| seeded_word(seed, i as nat))
}

/// The `n`th word of a seeded generator.
pub open spec fn seeded_word(seed: u64, n: nat) -> u64 {
    splitmix_output(seeded_state(seed, (n + 1) as nat))
}

/// The state of a seeded generator after `n` words.
pub open spec fn seeded_state(seed: u64, n: nat) -> u64
    decreases n,
{
    if n == 0 {
        seed
    } else {
        splitmix_step(seeded_state(seed, (n - 1) as nat))
    }
}

/// A generator whose words its seed decides. Its view is its state.
pub struct SeededDraws {
    source: SplitMix64,
}

impl View for SeededDraws {
    type V = u64;

    closed spec fn view(&self) -> u64 {
        self.source.state
    }
}

impl SeededDraws {
    /// The generator of a seed.
    pub fn new(seed: u64) -> (draws: SeededDraws)
        ensures
            draws@ == seed,
    {
        SeededDraws { source: SplitMix64 { state: seed } }
    }

    /// The next word.
    pub fn next_u64(&mut self) -> (word: u64)
        ensures
            final(self)@ == splitmix_step(old(self)@),
            word == splitmix_output(final(self)@),
    {
        self.source.next()
    }

    /// The next `count` words.
    pub fn words(&mut self, count: usize) -> (words: Vec<u64>)
        ensures
            words@ == Seq::new(count as nat, |i: int| seeded_word(old(self)@, i as nat)),
            final(self)@ == seeded_state(old(self)@, count as nat),
    {
        let mut words: Vec<u64> = Vec::new();
        for i in 0..count
            invariant
                words@.len() == i,
                self@ == seeded_state(old(self)@, i as nat),
                forall|j: int|
                    0 <= j < i ==> #[trigger] words@[j] == seeded_word(old(self)@, j as nat),
        {
            words.push(self.next_u64());
        }
        assert(words@ =~= Seq::new(count as nat, |i: int| seeded_word(old(self)@, i as nat)));
        words
    }
}

/// Whether two lists hold the same entries, and one is without repetition where
/// the other is.
pub(crate) open spec fn rearranged<T>(from: Seq<T>, to: Seq<T>) -> bool {
    &&& from.len() == to.len()
    &&& forall|x: T| #[trigger] from.contains(x) <==> to.contains(x)
    &&& from.no_duplicates() ==> to.no_duplicates()
}

proof fn lemma_exchanged<T>(values: Seq<T>, i: int, j: int)
    requires
        0 <= i < values.len(),
        0 <= j < values.len(),
    ensures
        rearranged(values, exchanged(values, i, j)),
{
    let after = exchanged(values, i, j);
    assert forall|x: T| #[trigger] values.contains(x) implies after.contains(x) by {
        let k = values.index_of(x);
        if k == i {
            assert(after[j] == x);
        } else if k == j {
            assert(after[i] == x);
        } else {
            assert(after[k] == x);
        }
    }
    assert forall|x: T| after.contains(x) implies #[trigger] values.contains(x) by {
        let k = after.index_of(x);
        if k == i {
            assert(values[j] == x);
        } else if k == j {
            assert(values[i] == x);
        } else {
            assert(values[k] == x);
        }
    }
}

proof fn lemma_number_below(words: Seq<u64>, bound: int)
    requires
        bound > 0,
    ensures
        number_below(words, bound) matches Some((number, _)) ==> 0 <= number < bound,
    decreases words.len(),
{
    if words.len() > 0 && words[0] < bias(bound) {
        lemma_number_below(words.drop_first(), bound);
    }
}

pub(crate) proof fn lemma_mixed<T>(values: Seq<T>, index: nat, words: Seq<u64>)
    requires
        index < values.len(),
    ensures
        mixed(values, index, words) matches Some((mix, _)) ==> rearranged(values, mix),
    decreases index,
{
    if index > 0 {
        lemma_number_below(words, index as int + 1);
        if let Some((target, rest)) = number_below(words, index as int + 1) {
            lemma_exchanged(values, index as int, target);
            let middle = exchanged(values, index as int, target);
            lemma_mixed(middle, (index - 1) as nat, rest);
            if let Some((mix, _)) = mixed(values, index, words) {
                assert forall|x: T| #[trigger] values.contains(x) implies mix.contains(x) by {
                    assert(middle.contains(x));
                }
                assert forall|x: T| mix.contains(x) implies #[trigger] values.contains(x) by {
                    assert(middle.contains(x));
                }
            }
        }
    }
}

proof fn lemma_padding_from(slots: Seq<Slot>, i: int)
    requires
        0 <= i <= slots.len(),
    ensures
        i <= padding_from(slots, i) <= slots.len(),
        padding_from(slots, i) < slots.len() ==> slots[padding_from(slots, i)] == Slot::Padding,
        forall|j: int| i <= j < padding_from(slots, i) ==> slots[j] != Slot::Padding,
    decreases slots.len() - i,
{
    if i < slots.len() && slots[i] != Slot::Padding {
        lemma_padding_from(slots, i + 1);
    }
}

proof fn lemma_padding_last(slots: Seq<Slot>)
    requires
        slots.contains(Slot::Padding),
        slots.no_duplicates(),
    ensures
        padding_last(slots).no_duplicates(),
        padding_last(slots).len() == slots.len(),
        padding_last(slots).last() == Slot::Padding,
        forall|slot: Slot| #[trigger] slots.contains(slot) <==> padding_last(slots).contains(slot),
{
    lemma_padding_from(slots, 0);
    let at = padding_from(slots, 0);
    let k = slots.index_of(Slot::Padding);
    assert(at < slots.len());
    let after = padding_last(slots);
    assert forall|slot: Slot| #[trigger] slots.contains(slot) implies after.contains(slot) by {
        let i = slots.index_of(slot);
        if i < at {
            assert(after[i] == slot);
        } else if i == at {
            assert(after[after.len() - 1] == slot);
        } else {
            assert(after[i - 1] == slot);
        }
    }
    assert forall|slot: Slot| after.contains(slot) implies #[trigger] slots.contains(slot) by {
        let i = after.index_of(slot);
        if i < at {
            assert(slots[i] == slot);
        } else if i == after.len() - 1 {
            assert(slots[at] == slot);
        } else {
            assert(slots[i + 1] == slot);
        }
    }
}

/// The slots that every drawn hello carries.
pub open spec fn mandatory(slot: Slot) -> bool {
    slot == Slot::ServerName || slot == Slot::SessionTicket || slot == Slot::SignatureAlgorithms
        || slot == Slot::EcPointFormats || slot == Slot::SupportedGroups || slot == Slot::KeyShare
        || slot == Slot::PskKeyExchangeModes || slot == Slot::SupportedVersions || slot
        == Slot::Padding
}

proof fn lemma_chosen_slots(with_alpn: bool, faces: Seq<bool>, with_alps: bool)
    requires
        with_alps ==> with_alpn,
    ensures
        ({
            let slots = chosen_slots(with_alpn, faces, with_alps);
            &&& slots.no_duplicates()
            &&& forall|slot: Slot| mandatory(slot) ==> #[trigger] slots.contains(slot)
            &&& slots.contains(Slot::ApplicationSettings) ==> slots.contains(Slot::Alpn)
        }),
{
    let slots = chosen_slots(with_alpn, faces, with_alps);
    assert(slots[0] == Slot::ServerName && slots[1] == Slot::SessionTicket && slots[2]
        == Slot::SignatureAlgorithms && slots[3] == Slot::EcPointFormats && slots[4]
        == Slot::SupportedGroups);
    let tail = slots.len() - if with_alps {
        1int
    } else {
        0
    };
    assert(slots[tail - 1] == Slot::SupportedVersions);
    assert(slots[tail - 2] == Slot::PskKeyExchangeModes);
    assert(slots[tail - 3] == Slot::KeyShare);
    if with_alpn {
        assert(slots[5] == Slot::Alpn);
        assert(slots[6] == Slot::Padding);
    } else {
        assert(slots[5] == Slot::Padding);
    }
}

proof fn lemma_layout(with_alpn: bool, words: Seq<u64>)
    ensures
        drawn_layout(with_alpn, words) matches Some((layout, _)) ==> {
            &&& layout.no_duplicates()
            &&& layout.len() > 0
            &&& layout.last() == Slot::Padding
            &&& forall|slot: Slot| mandatory(slot) ==> #[trigger] layout.contains(slot)
            &&& layout.contains(Slot::ApplicationSettings) ==> layout.contains(Slot::Alpn)
        },
{
    if let Some((faces, rest)) = flips(words, layout_weights()) {
        let (with_alps, left) = if with_alpn {
            match flipped(rest, APPEND_ALPS) {
                Some((face, left)) => (face, left),
                None => (false, rest),
            }
        } else {
            (false, rest)
        };
        let slots = chosen_slots(with_alpn, faces, with_alps);
        lemma_chosen_slots(with_alpn, faces, with_alps);
        assert(slots.contains(Slot::Padding));
        lemma_mixed(slots, (slots.len() - 1) as nat, left);
        if let Some((mix, _)) = shuffled_all(slots, left) {
            assert(mix.contains(Slot::Padding));
            lemma_padding_last(mix);
            assert forall|slot: Slot| mandatory(slot) implies #[trigger] padding_last(
                mix,
            ).contains(slot) by {
                assert(slots.contains(slot));
                assert(mix.contains(slot));
            }
            if padding_last(mix).contains(Slot::ApplicationSettings) {
                assert(mix.contains(Slot::ApplicationSettings));
                assert(slots.contains(Slot::ApplicationSettings));
                assert(slots.contains(Slot::Alpn));
                assert(mix.contains(Slot::Alpn));
            }
        }
    }
}

/// Whether `at` are places, one behind the other, that `kept` has its entries
/// from.
spec fn kept_from(candidates: Seq<u16>, kept: Seq<u16>, at: Seq<int>, n: int) -> bool {
    &&& at.len() == kept.len()
    &&& forall|i: int|
        0 <= i < at.len() ==> 0 <= #[trigger] at[i] < n && kept[i] == candidates[at[i]]
    &&& forall|i: int, j: int| 0 <= i < j < at.len() ==> at[i] < at[j]
}

proof fn lemma_trimmed(candidates: Seq<u16>, n: nat, words: Seq<u64>) -> (at: Seq<int>)
    requires
        n <= candidates.len(),
    ensures
        trimmed(candidates, n, words) matches Some((kept, _)) ==> {
            &&& kept.len() <= n
            &&& n > 0 ==> kept.len() > 0 && kept[0] == candidates[0]
            &&& kept_from(candidates, kept, at, n as int)
        },
    decreases n,
{
    if n > 0 {
        let before = lemma_trimmed(candidates, (n - 1) as nat, words);
        match trimmed(candidates, n, words) {
            Some((kept, _)) => if kept.len() == before.len() {
                before
            } else {
                before.push(n - 1)
            },
            None => before,
        }
    } else {
        Seq::empty()
    }
}

/// Where an older suite stands in the table.
spec fn legacy_place(id: u16) -> int {
    if id == 0xcca8 {
        0
    } else if id == 0xcca9 {
        1
    } else if id == 0xc02f {
        2
    } else if id == 0xc02b {
        3
    } else if id == 0xc030 {
        4
    } else if id == 0xc02c {
        5
    } else if id == 0xc027 {
        6
    } else if id == 0xc013 {
        7
    } else if id == 0xc023 {
        8
    } else if id == 0xc009 {
        9
    } else if id == 0xc014 {
        10
    } else if id == 0xc00a {
        11
    } else if id == 0x009c {
        12
    } else if id == 0x009d {
        13
    } else if id == 0x003c {
        14
    } else if id == 0x002f {
        15
    } else if id == 0x0035 {
        16
    } else if id == 0xc012 {
        17
    } else if id == 0x000a {
        18
    } else if id == 0x0005 {
        19
    } else if id == 0xc011 {
        20
    } else {
        21
    }
}

proof fn lemma_legacy_place(i: int)
    requires
        0 <= i < 22,
    ensures
        legacy_place(LEGACY_CIPHER_SUITES@[i].0) == i,
        !is_tls13(LEGACY_CIPHER_SUITES@[i].0),
{
}

/// Whether a suite is an obsolete one.
pub open spec fn is_obsolete(id: u16) -> bool {
    exists|i: int| 0 <= i < 22 && (#[trigger] LEGACY_CIPHER_SUITES@[i]) == (id, true)
}

proof fn lemma_obsolete(i: int)
    requires
        0 <= i < 22,
    ensures
        is_obsolete(LEGACY_CIPHER_SUITES@[i].0) == LEGACY_CIPHER_SUITES@[i].1,
{
    let id = LEGACY_CIPHER_SUITES@[i].0;
    if is_obsolete(id) {
        let j = choose|j: int| 0 <= j < 22 && (#[trigger] LEGACY_CIPHER_SUITES@[j]) == (id, true);
        lemma_legacy_place(i);
        lemma_legacy_place(j);
    }
    if LEGACY_CIPHER_SUITES@[i].1 {
        assert(LEGACY_CIPHER_SUITES@[i] == (id, true));
    }
}

proof fn lemma_permuted(len: nat, n: nat, words: Seq<u64>)
    requires
        n <= len,
        len > 0,
    ensures
        permuted(len, n, words) matches Some((places, _)) ==> places.len() == len && forall|i: int|
            0 <= i < len ==> #[trigger] places[i] < len,
    decreases n,
{
    if n > 1 {
        lemma_permuted(len, (n - 1) as nat, words);
        if let Some((places, rest)) = permuted(len, (n - 1) as nat, words) {
            lemma_number_below(rest, n as int);
        }
    }
}

/// The table places of the suites of the first `n` ranks: their ranks go up.
proof fn lemma_ranked(tags: Seq<usize>, n: nat) -> (places: Seq<int>)
    ensures
        places.len() == ranked_suites(tags, n).len(),
        forall|k: int|
            0 <= k < places.len() ==> 0 <= #[trigger] places[k] < 22 && ranked_suites(tags, n)[k]
                == LEGACY_CIPHER_SUITES@[places[k]].0 && !is_rc4(ranked_suites(tags, n)[k])
                && suite_rank(tags, places[k]) < n,
        forall|a: int, b: int|
            0 <= a < b < places.len() ==> suite_rank(tags, #[trigger] places[a]) < suite_rank(
                tags,
                #[trigger] places[b],
            ),
    decreases n,
{
    if n == 0 {
        Seq::empty()
    } else {
        let before = lemma_ranked(tags, (n - 1) as nat);
        lemma_ranked_from(tags, n - 1, 0);
        match ranked_from(tags, n - 1, 0) {
            Some(i) => if is_rc4(LEGACY_CIPHER_SUITES@[i].0) {
                before
            } else {
                before.push(i)
            },
            None => before,
        }
    }
}

/// What the candidates of a draw are like: all different, no RC4, the obsolete
/// ones behind the others.
spec fn orderly(suites: Seq<u16>) -> bool {
    &&& suites.no_duplicates()
    &&& forall|i: int| 0 <= i < suites.len() ==> !is_rc4(#[trigger] suites[i])
    &&& forall|i: int, j: int|
        0 <= i < j < suites.len() && is_obsolete(#[trigger] suites[i]) ==> is_obsolete(
            #[trigger] suites[j],
        )
}

proof fn lemma_candidates(tls13: Seq<u16>, tags: Seq<usize>)
    requires
        tls13.no_duplicates(),
        forall|i: int| 0 <= i < tls13.len() ==> is_tls13(#[trigger] tls13[i]),
        tags.len() == 22,
        forall|i: int| 0 <= i < 22 ==> #[trigger] tags[i] < 22,
    ensures
        orderly(tls13 + ranked_suites(tags, 44)),
{
    let legacy = ranked_suites(tags, 44);
    let places = lemma_ranked(tags, 44);
    let all = tls13 + legacy;
    let front = tls13.len();
    assert forall|k: int| 0 <= k < legacy.len() implies legacy_place(#[trigger] legacy[k])
        == places[k] && !is_tls13(legacy[k]) && is_obsolete(legacy[k]) == (suite_rank(
        tags,
        places[k],
    ) >= 22) by {
        lemma_legacy_place(places[k]);
        lemma_obsolete(places[k]);
        assert(tags[places[k]] < 22);
    }
    assert forall|i: int, j: int| 0 <= i < j < all.len() implies all[i] != all[j] by {
        if j >= front {
            assert(all[j] == legacy[j - front]);
            if i >= front {
                assert(all[i] == legacy[i - front]);
                assert(suite_rank(tags, places[i - front]) < suite_rank(tags, places[j - front]));
            } else {
                assert(is_tls13(tls13[i]));
            }
        }
    }
    assert(all.no_duplicates());
    assert forall|i: int, j: int|
        0 <= i < j < all.len() && is_obsolete(#[trigger] all[i]) implies is_obsolete(
        #[trigger] all[j],
    ) by {
        if i < front {
            assert(is_tls13(tls13[i]));
            let k = choose|k: int|
                0 <= k < 22 && (#[trigger] LEGACY_CIPHER_SUITES@[k]) == (all[i], true);
            lemma_legacy_place(k);
        } else {
            assert(all[i] == legacy[i - front]);
            assert(all[j] == legacy[j - front]);
            assert(suite_rank(tags, places[i - front]) < suite_rank(tags, places[j - front]));
        }
    }
    assert forall|i: int| 0 <= i < all.len() implies !is_rc4(#[trigger] all[i]) by {
        if i < front {
            assert(is_tls13(tls13[i]));
        } else {
            assert(all[i] == legacy[i - front]);
        }
    }
}

/// The id of a suite slot that holds one.
pub open spec fn slot_suite(slot: CipherSuiteSlot) -> u16 {
    match slot {
        CipherSuiteSlot::Grease => 0,
        CipherSuiteSlot::Negotiable(id) => id,
        CipherSuiteSlot::Decorative(id) => id,
    }
}

pub(crate) proof fn lemma_suites(words: Seq<u64>)
    ensures
        drawn_suites(words) matches Some((slots, _)) ==> {
            &&& 1 <= slots.len() <= 22
            &&& slots[0] is Negotiable
            &&& forall|i: int| 0 <= i < slots.len() ==> suite_complaint(#[trigger] slots[i]) is None
            &&& forall|i: int|
                0 <= i < slots.len() ==> match #[trigger] slots[i] {
                    CipherSuiteSlot::Grease => false,
                    CipherSuiteSlot::Negotiable(id) => is_tls13(id),
                    CipherSuiteSlot::Decorative(id) => is_legacy(id),
                }
            &&& forall|i: int, j: int|
                0 <= i < j < slots.len() ==> slot_suite(#[trigger] slots[i]) != slot_suite(
                    #[trigger] slots[j],
                )
            &&& forall|i: int| 0 <= i < slots.len() ==> !is_rc4(slot_suite(#[trigger] slots[i]))
            &&& forall|i: int, j: int|
                0 <= i < j < slots.len() && is_obsolete(slot_suite(#[trigger] slots[i]))
                    ==> is_obsolete(slot_suite(#[trigger] slots[j]))
        },
{
    if let Some((tags, rest)) = permuted(22, 22, words) {
        lemma_permuted(22, 22, words);
        lemma_ranked_count(tags, 44);
        lemma_at_most_nineteen(tags);
        lemma_mixed(TLS13_CIPHER_SUITES@, 2, rest);
        if let Some((tls13, left)) = shuffled_all(TLS13_CIPHER_SUITES@, rest) {
            let legacy = ranked_suites(tags, 44);
            let candidates = tls13 + legacy;
            let at = lemma_trimmed(candidates, candidates.len(), left);
            assert forall|i: int| 0 <= i < 3 implies is_tls13(#[trigger] tls13[i]) by {
                assert(tls13.contains(tls13[i]));
                assert(TLS13_CIPHER_SUITES@.contains(tls13[i]));
                let k = TLS13_CIPHER_SUITES@.index_of(tls13[i]);
                assert(is_tls13(TLS13_CIPHER_SUITES@[k]));
            }
            assert(TLS13_CIPHER_SUITES@.no_duplicates());
            lemma_candidates(tls13, tags);
            if let Some((kept, _)) = trimmed(candidates, candidates.len(), left) {
                let slots = suite_slots_of(kept);
                assert(kept[0] == tls13[0]);
                assert forall|i: int| 0 <= i < kept.len() implies suite_complaint(
                    #[trigger] slots[i],
                ) is None && slot_suite(slots[i]) == candidates[at[i]] && (is_tls13(kept[i])
                    || is_legacy(kept[i])) by {
                    let k = at[i];
                    if k < 3 {
                        assert(is_tls13(tls13[k]));
                    } else {
                        assert(candidates[k] == legacy[k - 3]);
                        assert(is_legacy(legacy[k - 3]));
                        lemma_legacy_is_not_implemented(kept[i]);
                    }
                }
                assert forall|i: int, j: int| 0 <= i < j < slots.len() implies slot_suite(
                    #[trigger] slots[i],
                ) != slot_suite(#[trigger] slots[j]) by {
                    assert(slot_suite(slots[i]) == candidates[at[i]]);
                    assert(slot_suite(slots[j]) == candidates[at[j]]);
                    assert(at[i] < at[j]);
                }
                assert forall|i: int, j: int|
                    0 <= i < j < slots.len() && is_obsolete(
                        slot_suite(#[trigger] slots[i]),
                    ) implies is_obsolete(slot_suite(#[trigger] slots[j])) by {
                    assert(at[i] < at[j]);
                    assert(is_obsolete(candidates[at[i]]));
                    assert(is_obsolete(candidates[at[j]]));
                }
            }
        }
    }
}

proof fn lemma_legacy_is_not_implemented(id: u16)
    requires
        is_legacy(id),
    ensures
        CipherSuite::spec_from_id(id) is None,
{
}

proof fn lemma_no_suite_complaint(slots: Seq<CipherSuiteSlot>, n: nat)
    requires
        n <= slots.len(),
        forall|i: int| 0 <= i < slots.len() ==> suite_complaint(#[trigger] slots[i]) is None,
        slots.len() > 0,
        slots[0] is Negotiable,
    ensures
        first_suite_complaint(slots, n) is None,
        n > 0 ==> negotiable_suites(slots, n).len() > 0,
    decreases n,
{
    if n > 0 {
        lemma_no_suite_complaint(slots, (n - 1) as nat);
        assert(suite_complaint(slots[n - 1]) is None);
    }
}

/// What the extensions of a drawn hello come to, up to `n`: `share` and `groups`
/// are where the key share and the group list stand.
proof fn lemma_extensions(hello: RandomShape, share: int, groups: int, n: nat)
    requires
        hello.layout.no_duplicates(),
        hello.layout.len() > 0,
        hello.layout.last() == Slot::Padding,
        0 <= share < hello.layout.len(),
        hello.layout[share] == Slot::KeyShare,
        0 <= groups < hello.layout.len(),
        hello.layout[groups] == Slot::SupportedGroups,
        hello.key_shares == plain_share(),
        n <= hello.layout.len(),
    ensures
        ({
            let extensions = random_profile(hello).extensions;
            &&& first_extension_complaint(extensions, n) is None
            &&& key_share_count(extensions, n) == if share < n {
                1nat
            } else {
                0nat
            }
            &&& grease_slots(extensions, n).len() == 0
            &&& shared_groups(extensions, n) == if share < n {
                seq![NamedGroup::X25519]
            } else {
                Seq::empty()
            }
            &&& advertised_groups(extensions, n) == if groups < n {
                hello.supported_groups
            } else {
                Seq::empty()
            }
        }),
    decreases n,
{
    let extensions = random_profile(hello).extensions;
    if n > 0 {
        lemma_extensions(hello, share, groups, (n - 1) as nat);
        assert(extensions[n - 1] == encoded(hello, hello.layout[n - 1]));
        reveal_with_fuel(entry_groups, 2);
        reveal_with_fuel(first_share_complaint, 2);
        assert(entry_groups(plain_share(), 1) =~= seq![NamedGroup::X25519]);
        if n - 1 == share {
            assert(shared_groups(extensions, n) =~= seq![NamedGroup::X25519]);
        }
        if hello.layout[n - 1] == Slot::Padding {
            assert(hello.layout[hello.layout.len() - 1] == Slot::Padding);
            assert(n == hello.layout.len());
        }
    }
}

/// Every draw is a hello that can be written and that a server can authenticate:
/// it validates, it sends exactly one X25519 share, its first suite is a TLS 1.3
/// one among at most twenty-two, no suite occurs twice or is an RC4 one and the
/// obsolete ones stand last, nothing mandatory is missing and no extension occurs
/// twice, padding stands last, and application settings only beside ALPN.
pub proof fn every_draw_can_be_authenticated(words: Seq<u64>)
    ensures
        drawn_hello(words) matches Some((hello, _)) ==> {
            let profile = random_profile(hello);
            &&& profile_verdict(profile) is Ok
            &&& shared_groups(profile.extensions, profile.extensions.len()) == seq![
                NamedGroup::X25519,
            ]
            &&& 1 <= hello.cipher_suites.len() <= 22
            &&& hello.cipher_suites[0] is Negotiable
            &&& forall|i: int, j: int|
                0 <= i < j < hello.cipher_suites.len() ==> slot_suite(
                    #[trigger] hello.cipher_suites[i],
                ) != slot_suite(#[trigger] hello.cipher_suites[j])
            &&& forall|i: int|
                0 <= i < hello.cipher_suites.len() ==> !is_rc4(
                    slot_suite(#[trigger] hello.cipher_suites[i]),
                )
            &&& forall|i: int, j: int|
                0 <= i < j < hello.cipher_suites.len() && is_obsolete(
                    slot_suite(#[trigger] hello.cipher_suites[i]),
                ) ==> is_obsolete(slot_suite(#[trigger] hello.cipher_suites[j]))
            &&& hello.layout.no_duplicates()
            &&& hello.layout.last() == Slot::Padding
            &&& forall|slot: Slot| mandatory(slot) ==> #[trigger] hello.layout.contains(slot)
            &&& hello.layout.contains(Slot::ApplicationSettings) ==> hello.layout.contains(
                Slot::Alpn,
            )
            &&& hello.supported_groups[0] == GroupSlot::Group(NamedGroup::X25519)
        },
{
    if let Some((hello, _)) = drawn_hello(words) {
        let (faces, after_coins) = flips(words, first_weights())->0;
        let (suites, after_suites) = drawn_suites(after_coins)->0;
        let (body, after_schemes) = drawn_schemes(after_suites)->0;
        let (groups, after_groups) = drawn_groups(after_schemes)->0;
        lemma_suites(after_coins);
        lemma_layout(faces[0], after_groups);
        lemma_no_suite_complaint(suites, suites.len());
        assert(hello.layout.contains(Slot::KeyShare));
        assert(hello.layout.contains(Slot::SupportedGroups));
        let share = hello.layout.index_of(Slot::KeyShare);
        let list = hello.layout.index_of(Slot::SupportedGroups);
        lemma_extensions(hello, share, list, hello.layout.len());
        assert(hello.supported_groups[0] == GroupSlot::Group(NamedGroup::X25519));
        reveal_with_fuel(first_unadvertised, 2);
        assert(hello.supported_groups.contains(GroupSlot::Group(NamedGroup::X25519)));
    }
}

proof fn lemma_flipped_more(words: Seq<u64>, weight: u64, more: Seq<u64>)
    ensures
        flipped(words, weight) matches Some((face, rest)) ==> flipped(words + more, weight) == Some(
            (face, rest + more),
        ),
{
    if words.len() > 0 {
        assert((words + more).drop_first() =~= words.drop_first() + more);
    }
}

proof fn lemma_below_more(words: Seq<u64>, bound: int, more: Seq<u64>)
    ensures
        number_below(words, bound) matches Some((number, rest)) ==> number_below(
            words + more,
            bound,
        ) == Some((number, rest + more)),
    decreases words.len(),
{
    if words.len() > 0 {
        assert((words + more).drop_first() =~= words.drop_first() + more);
        lemma_below_more(words.drop_first(), bound, more);
    }
}

proof fn lemma_mixed_more<T>(values: Seq<T>, index: nat, words: Seq<u64>, more: Seq<u64>)
    ensures
        mixed(values, index, words) matches Some((mix, rest)) ==> mixed(
            values,
            index,
            words + more,
        ) == Some((mix, rest + more)),
    decreases index,
{
    if index > 0 {
        lemma_below_more(words, index as int + 1, more);
        if let Some((target, rest)) = number_below(words, index as int + 1) {
            lemma_mixed_more(
                exchanged(values, index as int, target),
                (index - 1) as nat,
                rest,
                more,
            );
        }
    }
}

proof fn lemma_permuted_more(len: nat, n: nat, words: Seq<u64>, more: Seq<u64>)
    ensures
        permuted(len, n, words) matches Some((places, rest)) ==> permuted(len, n, words + more)
            == Some((places, rest + more)),
    decreases n,
{
    if n > 1 {
        lemma_permuted_more(len, (n - 1) as nat, words, more);
        if let Some((places, rest)) = permuted(len, (n - 1) as nat, words) {
            lemma_below_more(rest, n as int, more);
        }
    }
}

proof fn lemma_trimmed_more(candidates: Seq<u16>, n: nat, words: Seq<u64>, more: Seq<u64>)
    ensures
        trimmed(candidates, n, words) matches Some((kept, rest)) ==> trimmed(
            candidates,
            n,
            words + more,
        ) == Some((kept, rest + more)),
    decreases n,
{
    if n > 0 {
        lemma_trimmed_more(candidates, (n - 1) as nat, words, more);
        if let Some((kept, rest)) = trimmed(candidates, (n - 1) as nat, words) {
            if kept.len() > 0 {
                lemma_flipped_more(rest, REMOVE_RANDOM_CIPHERS@[kept.len() - 1], more);
            }
        }
    }
}

proof fn lemma_flips_more(words: Seq<u64>, weights: Seq<u64>, more: Seq<u64>)
    ensures
        flips(words, weights) matches Some((faces, rest)) ==> flips(words + more, weights) == Some(
            (faces, rest + more),
        ),
    decreases weights.len(),
{
    if weights.len() > 0 {
        lemma_flips_more(words, weights.drop_last(), more);
        if let Some((faces, rest)) = flips(words, weights.drop_last()) {
            lemma_flipped_more(rest, weights.last(), more);
        }
    }
}

proof fn lemma_suites_more(words: Seq<u64>, more: Seq<u64>)
    ensures
        drawn_suites(words) matches Some((suites, rest)) ==> drawn_suites(words + more) == Some(
            (suites, rest + more),
        ),
{
    lemma_permuted_more(22, 22, words, more);
    if let Some((tags, rest)) = permuted(22, 22, words) {
        lemma_mixed_more(TLS13_CIPHER_SUITES@, 2, rest, more);
        if let Some((tls13, left)) = shuffled_all(TLS13_CIPHER_SUITES@, rest) {
            let candidates = tls13 + ranked_suites(tags, 44);
            lemma_trimmed_more(candidates, candidates.len(), left, more);
        }
    }
}

proof fn lemma_schemes_more(words: Seq<u64>, more: Seq<u64>)
    ensures
        drawn_schemes(words) matches Some((body, rest)) ==> drawn_schemes(words + more) == Some(
            (body, rest + more),
        ),
{
    lemma_flips_more(words, scheme_weights(), more);
    if let Some((faces, rest)) = flips(words, scheme_weights()) {
        let schemes = chosen_schemes(faces);
        lemma_mixed_more(schemes, (schemes.len() - 1) as nat, rest, more);
    }
}

proof fn lemma_layout_more(with_alpn: bool, words: Seq<u64>, more: Seq<u64>)
    ensures
        drawn_layout(with_alpn, words) matches Some((layout, rest)) ==> drawn_layout(
            with_alpn,
            words + more,
        ) == Some((layout, rest + more)),
{
    lemma_flips_more(words, layout_weights(), more);
    if let Some((faces, rest)) = flips(words, layout_weights()) {
        lemma_flipped_more(rest, APPEND_ALPS, more);
        if with_alpn {
            if let Some((with_alps, left)) = flipped(rest, APPEND_ALPS) {
                let slots = chosen_slots(with_alpn, faces, with_alps);
                lemma_mixed_more(slots, (slots.len() - 1) as nat, left, more);
            }
        } else {
            let slots = chosen_slots(with_alpn, faces, false);
            lemma_mixed_more(slots, (slots.len() - 1) as nat, rest, more);
        }
    }
}

/// A draw takes the words that it needs and no others: where words suffice,
/// more words behind them draw the same hello.
pub proof fn more_words_draw_the_same_hello(words: Seq<u64>, more: Seq<u64>)
    ensures
        drawn_hello(words) matches Some((hello, rest)) ==> drawn_hello(words + more) == Some(
            (hello, rest + more),
        ),
{
    lemma_flips_more(words, first_weights(), more);
    if let Some((faces, after_coins)) = flips(words, first_weights()) {
        lemma_suites_more(after_coins, more);
        if let Some((_, after_suites)) = drawn_suites(after_coins) {
            lemma_schemes_more(after_suites, more);
            if let Some((_, after_schemes)) = drawn_schemes(after_suites) {
                lemma_flips_more(after_schemes, group_weights(), more);
                if let Some((_, after_groups)) = drawn_groups(after_schemes) {
                    lemma_layout_more(faces[0], after_groups, more);
                }
            }
        }
    }
}

} // verus!
