//! PEM key files for ECH.
//!
//! A key pair is one `ECH PRIVATE KEY` block followed by one `ECH CONFIG` block.
//! A file may hold several pairs.

use vstd::prelude::*;
use vstd::utf8::*;

use crate::base64::base64_encode;
use crate::base64::encode_text;
use crate::bytes::copy_of;
use crate::bytes::lemma_be_bytes_len;
use crate::ech::config::config_bytes;
use crate::ech::config::configs_bytes;
use crate::ech::config::decode_config;
use crate::ech::config::encode_list;
use crate::ech::config::fits;
use crate::ech::config::lemma_config_bytes_len;
use crate::ech::config::lemma_config_canonical;
use crate::ech::config::lemma_config_roundtrip;
use crate::ech::config::lemma_configs_grow;
use crate::ech::config::list_fits;
use crate::ech::config::vec2;
use crate::ech::config::views;
use crate::ech::config::EchConfig;
use crate::ech::config::EchConfigView;
use crate::ech::pem::blank;
use crate::ech::pem::block_text;
use crate::ech::pem::block_views;
use crate::ech::pem::blocks_text;
use crate::ech::pem::lemma_pem_roundtrip;
use crate::ech::pem::parse_pem_blocks;
use crate::ech::pem::pem_blocks;
use crate::ech::pem::writable_block;
use crate::ech::pem::write_pem_block;
use crate::ech::pem::BlockView;
use crate::ech::pem::PemBlock;
use crate::ech::pem::PemError;
use crate::text::chars_of;
use crate::text::same_chars;

verus! {

/// The label of private key blocks.
pub const PEM_LABEL_KEY: &'static str = "ECH PRIVATE KEY";

/// The label of configuration blocks.
pub const PEM_LABEL_CONFIG: &'static str = "ECH CONFIG";

/// A private key and its configuration.
#[derive(Debug)]
pub struct EchKeyPair {
    pub private_key: Vec<u8>,
    pub config: EchConfig,
}

/// A set of key pairs.
#[derive(Debug)]
pub struct EchKeySet {
    pub pairs: Vec<EchKeyPair>,
}

impl Clone for EchKeyPair {
    fn clone(&self) -> (r: Self)
        ensures
            r@ == self@,
    {
        let private_key = copy_of(&self.private_key, 0, self.private_key.len());
        assert(private_key@ =~= self.private_key@);
        EchKeyPair { private_key, config: self.config.clone() }
    }
}

impl Clone for EchKeySet {
    fn clone(&self) -> (r: Self)
        ensures
            pair_views(r.pairs@) == pair_views(self.pairs@),
    {
        let mut pairs: Vec<EchKeyPair> = Vec::new();
        let mut i: usize = 0;
        while i < self.pairs.len()
            invariant
                i <= self.pairs@.len(),
                pairs@.len() == i,
                forall|k: int| 0 <= k < i ==> (#[trigger] pairs@[k])@ == self.pairs@[k]@,
            decreases self.pairs@.len() - i,
        {
            pairs.push(self.pairs[i].clone());
            i = i + 1;
        }
        assert(pair_views(pairs@) =~= pair_views(self.pairs@));
        EchKeySet { pairs }
    }
}

/// What a key pair holds.
pub type PairView = (Seq<u8>, EchConfigView);

impl View for EchKeyPair {
    type V = (Seq<u8>, EchConfigView);

    open spec fn view(&self) -> (Seq<u8>, EchConfigView) {
        (self.private_key@, self.config@)
    }
}

/// What the key pairs in `v` hold.
pub open spec fn pair_views(v: Seq<EchKeyPair>) -> Seq<PairView> {
    Seq::new(v.len(), |i: int| v[i]@)
}

/// Why a file holds no sequence of key pairs.
#[derive(Clone, Copy, Debug, PartialEq, Eq, Structural)]
pub enum BundleError {
    /// The file holds no sequence of PEM blocks.
    Pem(PemError),
    /// A configuration stands where a private key is expected.
    ConfigBeforeKey,
    /// A block that is neither a private key nor a configuration stands where a
    /// private key is expected.
    UnexpectedLabel,
    /// The last private key has no configuration.
    MissingConfig,
    /// The block after a private key is no configuration.
    ExpectedConfig,
    /// A configuration is malformed.
    BadConfig,
}

/// Why a set of files holds no usable key set.
#[derive(Clone, Copy, Debug, PartialEq, Eq, Structural)]
pub enum KeySetError {
    /// There are no files.
    Empty,
    /// The file at `index` cannot be read.
    Unreadable { index: usize },
    /// The file at `index` holds no sequence of key pairs.
    Bundle { index: usize, error: BundleError },
    /// The file at `index` holds no key pair.
    NoPairs { index: usize },
    /// Two key pairs have this configuration id.
    DuplicateId { config_id: u8 },
}

/// The key pairs in a sequence of blocks.
pub open spec fn pairs_of_blocks(blocks: Seq<BlockView>) -> Result<Seq<PairView>, BundleError>
    decreases blocks.len(),
{
    if blocks.len() == 0 {
        Ok(Seq::empty())
    } else if blocks[0].0 == PEM_LABEL_CONFIG@ {
        Err(BundleError::ConfigBeforeKey)
    } else if blocks[0].0 != PEM_LABEL_KEY@ {
        Err(BundleError::UnexpectedLabel)
    } else if blocks.len() == 1 {
        Err(BundleError::MissingConfig)
    } else if blocks[1].0 != PEM_LABEL_CONFIG@ {
        Err(BundleError::ExpectedConfig)
    } else {
        match decode_config(blocks[1].1) {
            None => Err(BundleError::BadConfig),
            Some(config) => match pairs_of_blocks(blocks.skip(2)) {
                Ok(more) => Ok(seq![(blocks[0].1, config)] + more),
                Err(e) => Err(e),
            },
        }
    }
}

/// The key pairs in a file.
pub open spec fn pairs_of_file(bytes: Seq<u8>) -> Result<Seq<PairView>, BundleError> {
    match pem_blocks(bytes) {
        Err(e) => Err(BundleError::Pem(e)),
        Ok(blocks) => pairs_of_blocks(blocks),
    }
}

/// The key pairs of all files in turn. Each file must hold at least one.
pub open spec fn pairs_of_files(files: Seq<Seq<u8>>) -> Result<Seq<PairView>, KeySetError>
    decreases files.len(),
{
    if files.len() == 0 {
        Ok(Seq::empty())
    } else {
        match pairs_of_files(files.drop_last()) {
            Err(e) => Err(e),
            Ok(done) => match pairs_of_file(files.last()) {
                Err(error) => Err(
                    KeySetError::Bundle { index: (files.len() - 1) as usize, error },
                ),
                Ok(more) => if more.len() == 0 {
                    Err(KeySetError::NoPairs { index: (files.len() - 1) as usize })
                } else {
                    Ok(done + more)
                },
            },
        }
    }
}

/// Whether a later pair has the configuration id of the pair at `i`.
pub open spec fn has_duplicate(pairs: Seq<PairView>, i: int) -> bool {
    exists|j: int|
        i < j < pairs.len() && (#[trigger] pairs[j]).1.config_id == pairs[i].1.config_id
}

/// Whether `i` is the first position whose configuration id comes again.
pub open spec fn is_first_duplicate(pairs: Seq<PairView>, i: int) -> bool {
    &&& 0 <= i < pairs.len()
    &&& has_duplicate(pairs, i)
    &&& forall|k: int| 0 <= k < i ==> !#[trigger] has_duplicate(pairs, k)
}

/// Whether `config_id` is the first configuration id that comes again.
pub open spec fn is_duplicate_id(pairs: Seq<PairView>, config_id: u8) -> bool {
    exists|i: int| #[trigger] is_first_duplicate(pairs, i) && pairs[i].1.config_id == config_id
}

/// Whether all configuration ids differ.
pub open spec fn ids_distinct(pairs: Seq<PairView>) -> bool {
    forall|i: int, j: int|
        0 <= i < j < pairs.len() ==> (#[trigger] pairs[i]).1.config_id != (
        #[trigger] pairs[j]).1.config_id
}

/// The files in `v`.
pub open spec fn files_of(v: Seq<Vec<u8>>) -> Seq<Seq<u8>> {
    Seq::new(v.len(), |i: int| v[i]@)
}

/// Whether `r` is what loading the contents of some files gives: all pairs in turn, or
/// the first error. Every configuration fits the wire format, and no two have one id.
pub open spec fn loads(files: Seq<Seq<u8>>, r: Result<EchKeySet, KeySetError>) -> bool {
    match r {
        Ok(set) => {
            &&& files.len() > 0
            &&& pairs_of_files(files) == Ok::<_, KeySetError>(pair_views(set.pairs@))
            &&& ids_distinct(pair_views(set.pairs@))
            &&& set.pairs@.len() >= files.len()
            &&& forall|i: int|
                0 <= i < set.pairs@.len() ==> fits((#[trigger] set.pairs@[i]).config@)
        },
        Err(KeySetError::Empty) => files.len() == 0,
        Err(KeySetError::Unreadable { .. }) => false,
        Err(KeySetError::DuplicateId { config_id }) => {
            &&& files.len() > 0
            &&& pairs_of_files(files) matches Ok(pairs)
            &&& is_duplicate_id(pairs, config_id)
        },
        Err(e) => files.len() > 0 && pairs_of_files(files) == Err::<Seq<PairView>, _>(e),
    }
}

/// The text of a key pair.
pub open spec fn pair_text(private_key: Seq<u8>, config: EchConfigView) -> Seq<char> {
    block_text(PEM_LABEL_KEY@, private_key) + block_text(PEM_LABEL_CONFIG@, config_bytes(config))
}

/// The two blocks of a key pair.
pub open spec fn pair_blocks(pair: PairView) -> Seq<BlockView> {
    seq![(PEM_LABEL_KEY@, pair.0), (PEM_LABEL_CONFIG@, config_bytes(pair.1))]
}

/// The texts of the pairs, each behind some white space.
pub open spec fn pairs_text(pairs: Seq<PairView>, gaps: Seq<Seq<char>>) -> Seq<char>
    decreases pairs.len(),
{
    if pairs.len() == 0 {
        Seq::empty()
    } else {
        gaps[0] + pair_text(pairs[0].0, pairs[0].1) + pairs_text(pairs.skip(1), gaps.skip(1))
    }
}

/// Parse the key pairs of a file.
pub fn parse_pem_bundle(bytes: &[u8]) -> (r: Result<Vec<EchKeyPair>, BundleError>)
    ensures
        match r {
            Ok(pairs) => pairs_of_file(bytes@) == Ok::<_, BundleError>(pair_views(pairs@)),
            Err(e) => pairs_of_file(bytes@) == Err::<Seq<PairView>, _>(e),
        },
{
    let blocks = match parse_pem_blocks(bytes) {
        Err(e) => return Err(BundleError::Pem(e)),
        Ok(b) => b,
    };
    pair_up(&blocks)
}

/// The key pairs in a sequence of blocks.
fn pair_up(blocks: &Vec<PemBlock>) -> (r: Result<Vec<EchKeyPair>, BundleError>)
    ensures
        match r {
            Ok(pairs) => pairs_of_blocks(block_views(blocks@)) == Ok::<_, BundleError>(
                pair_views(pairs@),
            ),
            Err(e) => pairs_of_blocks(block_views(blocks@)) == Err::<Seq<PairView>, _>(e),
        },
{
    let ghost all = block_views(blocks@);
    let key_label = chars_of(PEM_LABEL_KEY);
    let config_label = chars_of(PEM_LABEL_CONFIG);
    let mut out: Vec<EchKeyPair> = Vec::new();
    let mut i: usize = 0;
    let n: usize = blocks.len();
    proof {
        assert(all.skip(0) =~= all);
        if let Ok(more) = pairs_of_blocks(all) {
            assert(pair_views(out@) + more =~= more);
        }
    }
    while i < n
        invariant
            n == blocks@.len(),
            i <= n,
            all == block_views(blocks@),
            key_label@ == PEM_LABEL_KEY@,
            config_label@ == PEM_LABEL_CONFIG@,
            match pairs_of_blocks(all.skip(i as int)) {
                Ok(more) => pairs_of_blocks(all) == Ok::<_, BundleError>(pair_views(out@) + more),
                Err(e) => pairs_of_blocks(all) == Err::<Seq<PairView>, _>(e),
            },
        decreases n - i,
    {
        let ghost cur = all.skip(i as int);
        assert(cur[0] == blocks@[i as int]@);
        if same_chars(&blocks[i].label, &config_label) {
            return Err(BundleError::ConfigBeforeKey);
        }
        if !same_chars(&blocks[i].label, &key_label) {
            return Err(BundleError::UnexpectedLabel);
        }
        if n - i == 1 {
            return Err(BundleError::MissingConfig);
        }
        assert(cur[1] == blocks@[i + 1]@);
        if !same_chars(&blocks[i + 1].label, &config_label) {
            return Err(BundleError::ExpectedConfig);
        }
        let config = match EchConfig::decode(&blocks[i + 1].body) {
            Err(_) => return Err(BundleError::BadConfig),
            Ok(c) => c,
        };
        let private_key = blocks[i].body.clone();
        assert(private_key@ =~= blocks@[i as int].body@);
        let ghost done = pair_views(out@);
        let pair = EchKeyPair { private_key, config };
        out.push(pair);
        proof {
            assert(cur.skip(2) =~= all.skip(i + 2));
            assert(pair_views(out@) =~= done.push(pair@));
            if let Ok(more) = pairs_of_blocks(all.skip(i + 2)) {
                assert(done.push(pair@) + more =~= done + (seq![pair@] + more));
            }
        }
        i = i + 2;
    }
    proof {
        assert(all.skip(i as int) =~= Seq::empty());
        assert(pair_views(out@) + Seq::<PairView>::empty() =~= pair_views(out@));
    }
    Ok(out)
}

/// Whether a directory entry with this name is read as a key file: hidden files
/// are not.
pub fn is_key_file_name(name: &str) -> (r: bool)
    ensures
        r == !(name@.len() > 0 && name@[0] == '.'),
{
    let chars = chars_of(name);
    !(chars.len() > 0 && chars[0] == '.')
}

impl EchKeySet {
    /// Load the key pairs of all `bundles`, the contents of the key files in turn.
    ///
    /// Configuration ids must differ over all pairs: a receiver selects the key by
    /// the id alone.
    pub fn load(bundles: &Vec<Vec<u8>>) -> (r: Result<Self, KeySetError>)
        ensures
            loads(files_of(bundles@), r),
    {
        if bundles.len() == 0 {
            return Err(KeySetError::Empty);
        }
        let ghost files = files_of(bundles@);
        let mut pairs: Vec<EchKeyPair> = Vec::new();
        let mut k: usize = 0;
        proof {
            assert(files.take(0) =~= Seq::empty());
            assert(pair_views(pairs@) =~= Seq::empty());
        }
        while k < bundles.len()
            invariant
                k <= bundles@.len(),
                files == files_of(bundles@),
                bundles@.len() > 0,
                pairs_of_files(files.take(k as int)) == Ok::<_, KeySetError>(pair_views(pairs@)),
            decreases bundles@.len() - k,
        {
            let ghost upto = files.take(k + 1);
            assert(upto.drop_last() =~= files.take(k as int));
            assert(upto.last() == bundles@[k as int]@);
            let ghost done = pair_views(pairs@);
            match parse_pem_bundle(&bundles[k]) {
                Err(error) => {
                    proof {
                        lemma_first_failure(files, k + 1);
                    }
                    return Err(KeySetError::Bundle { index: k, error });
                },
                Ok(mut more) => {
                    if more.len() == 0 {
                        proof {
                            assert(pair_views(more@) =~= Seq::empty());
                            lemma_first_failure(files, k + 1);
                        }
                        return Err(KeySetError::NoPairs { index: k });
                    }
                    let ghost added = pair_views(more@);
                    pairs.append(&mut more);
                    assert(pair_views(pairs@) =~= done + added);
                },
            }
            k = k + 1;
        }
        assert(files.take(k as int) =~= files);
        let ghost all = pair_views(pairs@);
        let mut i: usize = 0;
        while i < pairs.len()
            invariant
                files == files_of(bundles@),
                i <= pairs@.len(),
                all == pair_views(pairs@),
                bundles@.len() > 0,
                pairs_of_files(files_of(bundles@)) == Ok::<_, KeySetError>(all),
                forall|m: int| 0 <= m < i ==> !#[trigger] has_duplicate(all, m),
            decreases pairs@.len() - i,
        {
            let mut j: usize = i + 1;
            while j < pairs.len()
                invariant
                    i < j <= pairs@.len(),
                    all == pair_views(pairs@),
                    bundles@.len() > 0,
                    pairs_of_files(files_of(bundles@)) == Ok::<_, KeySetError>(all),
                    forall|m: int| 0 <= m < i ==> !#[trigger] has_duplicate(all, m),
                    forall|m: int|
                        i < m < j ==> (#[trigger] all[m]).1.config_id != all[i as int].1.config_id,
                decreases pairs@.len() - j,
            {
                if pairs[i].config.config_id == pairs[j].config.config_id {
                    assert(all[j as int].1.config_id == all[i as int].1.config_id);
                    assert(has_duplicate(all, i as int));
                    assert(is_first_duplicate(all, i as int));
                    assert(is_duplicate_id(all, all[i as int].1.config_id));
                    return Err(KeySetError::DuplicateId { config_id: pairs[i].config.config_id });
                }
                j = j + 1;
            }
            assert(!has_duplicate(all, i as int));
            i = i + 1;
        }
        assert(ids_distinct(all)) by {
            assert forall|a: int, b: int| 0 <= a < b < all.len() implies (
            #[trigger] all[a]).1.config_id != (#[trigger] all[b]).1.config_id by {
                assert(!has_duplicate(all, a));
            }
        }
        proof {
            lemma_loaded_set(files);
            assert forall|m: int| 0 <= m < pairs@.len() implies fits(
                (#[trigger] pairs@[m]).config@,
            ) by {
                assert(fits(all[m].1));
            }
        }
        Ok(EchKeySet { pairs })
    }

    /// The configurations of the set.
    pub open spec fn configs(&self) -> Seq<EchConfigView> {
        Seq::new(self.pairs@.len(), |i: int| self.pairs@[i].config@)
    }

    /// Whether one configuration list can hold the configurations of the set.
    pub fn list_encodable(&self) -> (r: bool)
        ensures
            r == list_fits(self.configs()),
    {
        let ghost all = self.configs();
        let mut total: usize = 0;
        let mut i: usize = 0;
        assert(all.take(0) =~= Seq::empty());
        while i < self.pairs.len()
            invariant
                i <= self.pairs@.len(),
                all == self.configs(),
                forall|k: int| 0 <= k < i ==> fits(#[trigger] all[k]),
                total == configs_bytes(all.take(i as int)).len(),
                total < 0x1_0000,
            decreases self.pairs@.len() - i,
        {
            assert(all[i as int] == self.pairs@[i as int].config@);
            if !self.pairs[i].config.encodable() {
                return false;
            }
            let one: usize = self.pairs[i].config.encode().len();
            proof {
                lemma_config_bytes_len(all[i as int]);
                assert(all.take(i + 1).drop_last() =~= all.take(i as int));
                lemma_configs_grow(all, i + 1);
            }
            if total + one >= 0x1_0000 {
                return false;
            }
            total = total + one;
            i = i + 1;
        }
        assert(all.take(i as int) =~= all);
        true
    }

    /// Encode all configurations as one list, ready for the DNS `ech=` value.
    pub fn config_list_bytes(&self) -> (r: Vec<u8>)
        requires
            list_fits(self.configs()),
        ensures
            r@ == vec2(configs_bytes(self.configs())),
    {
        let mut configs: Vec<EchConfig> = Vec::new();
        let mut i: usize = 0;
        while i < self.pairs.len()
            invariant
                i <= self.pairs@.len(),
                configs@.len() == i,
                forall|k: int| 0 <= k < i ==> (#[trigger] configs@[k])@ == self.configs()[k],
            decreases self.pairs@.len() - i,
        {
            configs.push(self.pairs[i].config.clone());
            i = i + 1;
        }
        assert(views(configs@) =~= self.configs());
        encode_list(&configs)
    }

    /// The Base64 form of the configuration list, for the DNS `ech=` value; `None`
    /// if the configurations do not fit one list.
    pub fn published_list(&self) -> (r: Option<String>)
        ensures
            match r {
                Some(text) => {
                    &&& list_fits(self.configs())
                    &&& text@ == base64_encode(vec2(configs_bytes(self.configs())))
                },
                None => !list_fits(self.configs()),
            },
    {
        if !self.list_encodable() {
            return None;
        }
        let list = self.config_list_bytes();
        proof {
            lemma_be_bytes_len(configs_bytes(self.configs()).len(), 2);
        }
        Some(encode_text(&list))
    }
}

/// A failure among the first files is the failure of all.
proof fn lemma_first_failure(files: Seq<Seq<u8>>, k: int)
    requires
        0 <= k <= files.len(),
        pairs_of_files(files.take(k)) is Err,
    ensures
        pairs_of_files(files) == pairs_of_files(files.take(k)),
    decreases files.len(),
{
    if k == files.len() {
        assert(files.take(k) =~= files);
    } else {
        assert(files.drop_last().take(k) =~= files.take(k));
        lemma_first_failure(files.drop_last(), k);
    }
}

/// Render a key pair as the two blocks that a key file holds.
pub fn encode_pair_pem(private_key: &[u8], config: &EchConfig) -> (r: String)
    requires
        private_key@.len() <= usize::MAX / 4,
        fits(config@),
    ensures
        r@ == pair_text(private_key@, config@),
        pairs_of_file(encode_utf8(r@)) == Ok::<_, BundleError>(seq![(private_key@, config@)]),
{
    let mut out = String::new();
    let bytes = config.encode();
    proof {
        lemma_config_bytes_len(config@);
    }
    write_pem_block(&mut out, PEM_LABEL_KEY, private_key);
    write_pem_block(&mut out, PEM_LABEL_CONFIG, &bytes);
    proof {
        let pair = (private_key@, config@);
        let none = Seq::<char>::empty();
        assert(out@ =~= pair_text(private_key@, config@));
        assert(pairs_text(seq![pair].skip(1), seq![none].skip(1)) =~= none);
        assert(pairs_text(seq![pair], seq![none]) + none =~= out@);
        lemma_pairs_roundtrip(seq![pair], seq![none], none);
    }
    out
}

/// The blocks of all pairs.
pub open spec fn all_blocks(pairs: Seq<PairView>) -> Seq<BlockView>
    decreases pairs.len(),
{
    if pairs.len() == 0 {
        Seq::empty()
    } else {
        pair_blocks(pairs[0]) + all_blocks(pairs.skip(1))
    }
}

/// White space in front of the blocks of all pairs: that of a pair in front of its
/// first block, none in front of its second.
pub open spec fn all_gaps(gaps: Seq<Seq<char>>) -> Seq<Seq<char>>
    decreases gaps.len(),
{
    if gaps.len() == 0 {
        Seq::empty()
    } else {
        seq![gaps[0], Seq::empty()] + all_gaps(gaps.skip(1))
    }
}

/// Whether the file format can hold the pair: its configuration fits.
pub open spec fn writable(pair: PairView) -> bool {
    fits(pair.1)
}

/// Reading key pairs that were written, with any white space between them and
/// around them, gives the pairs back.
pub proof fn lemma_pairs_roundtrip(pairs: Seq<PairView>, gaps: Seq<Seq<char>>, end: Seq<char>)
    requires
        gaps.len() == pairs.len(),
        forall|i: int| 0 <= i < gaps.len() ==> blank(#[trigger] gaps[i]),
        blank(end),
        forall|i: int| 0 <= i < pairs.len() ==> writable(#[trigger] pairs[i]),
    ensures
        pairs_of_file(encode_utf8(pairs_text(pairs, gaps) + end)) == Ok::<_, BundleError>(pairs),
{
    let blocks = all_blocks(pairs);
    let spaces = all_gaps(gaps);
    lemma_blocks_of_pairs(pairs, gaps);
    lemma_pem_roundtrip(blocks, spaces, end);
}

proof fn lemma_blocks_of_pairs(pairs: Seq<PairView>, gaps: Seq<Seq<char>>)
    requires
        gaps.len() == pairs.len(),
        forall|i: int| 0 <= i < gaps.len() ==> blank(#[trigger] gaps[i]),
        forall|i: int| 0 <= i < pairs.len() ==> writable(#[trigger] pairs[i]),
    ensures
        all_blocks(pairs).len() == all_gaps(gaps).len(),
        forall|i: int| 0 <= i < all_gaps(gaps).len() ==> blank(#[trigger] all_gaps(gaps)[i]),
        forall|i: int|
            0 <= i < all_blocks(pairs).len() ==> writable_block(#[trigger] all_blocks(pairs)[i]),
        blocks_text(all_blocks(pairs), all_gaps(gaps)) == pairs_text(pairs, gaps),
        pairs_of_blocks(all_blocks(pairs)) == Ok::<_, BundleError>(pairs),
    decreases pairs.len(),
{
    if pairs.len() == 0 {
        assert(pairs =~= Seq::empty());
    } else {
        let ps = pairs.skip(1);
        let gs = gaps.skip(1);
        assert forall|i: int| 0 <= i < gs.len() implies blank(#[trigger] gs[i]) by {
            assert(gs[i] == gaps[i + 1]);
        }
        assert forall|i: int| 0 <= i < ps.len() implies writable(#[trigger] ps[i]) by {
            assert(ps[i] == pairs[i + 1]);
        }
        lemma_blocks_of_pairs(ps, gs);
        assert(writable(pairs[0]));
        assert(blank(gaps[0]));
        let bs = all_blocks(ps);
        let ss = all_gaps(gs);
        lemma_pair_blocks(pairs[0], bs);
        lemma_pair_text(pairs[0], bs, gaps[0], ss);
        lemma_pair_read(pairs, bs);
        let spaces = all_gaps(gaps);
        assert forall|i: int| 0 <= i < spaces.len() implies blank(#[trigger] spaces[i]) by {
            if i >= 2 {
                assert(spaces[i] == ss[i - 2]);
            }
        }
    }
}

/// The blocks of a writable pair can be written.
proof fn lemma_pair_blocks(pair: PairView, bs: Seq<BlockView>)
    requires
        writable(pair),
        forall|i: int| 0 <= i < bs.len() ==> writable_block(#[trigger] bs[i]),
    ensures
        ({
            let blocks = pair_blocks(pair) + bs;
            forall|i: int| 0 <= i < blocks.len() ==> writable_block(#[trigger] blocks[i])
        }),
{
    let blocks = pair_blocks(pair) + bs;
    lemma_labels();
    assert(writable_block((PEM_LABEL_KEY@, pair.0)));
    assert(writable_block((PEM_LABEL_CONFIG@, config_bytes(pair.1))));
    assert forall|i: int| 0 <= i < blocks.len() implies writable_block(#[trigger] blocks[i]) by {
        if i >= 2 {
            assert(blocks[i] == bs[i - 2]);
        }
    }
}

/// The text of the blocks of a pair in front of others.
proof fn lemma_pair_text(pair: PairView, bs: Seq<BlockView>, gap: Seq<char>, ss: Seq<Seq<char>>)
    ensures
        blocks_text(pair_blocks(pair) + bs, seq![gap, Seq::empty()] + ss) == gap + pair_text(
            pair.0,
            pair.1,
        ) + blocks_text(bs, ss),
{
    let blocks = pair_blocks(pair) + bs;
    let spaces = seq![gap, Seq::<char>::empty()] + ss;
    let b1 = blocks.skip(1);
    let s1 = spaces.skip(1);
    assert(b1.skip(1) =~= bs);
    assert(s1.skip(1) =~= ss);
    assert(blocks[0] == (PEM_LABEL_KEY@, pair.0));
    assert(b1[0] == (PEM_LABEL_CONFIG@, config_bytes(pair.1)));
    assert(spaces[0] == gap);
    assert(s1[0] == Seq::<char>::empty());
    let key = block_text(PEM_LABEL_KEY@, pair.0);
    let config = block_text(PEM_LABEL_CONFIG@, config_bytes(pair.1));
    let rest = blocks_text(bs, ss);
    assert(blocks_text(b1, s1) == Seq::<char>::empty() + config + rest);
    assert(blocks_text(blocks, spaces) == gap + key + (Seq::<char>::empty() + config + rest));
    lemma_regroup(gap, key, config, rest);
}

proof fn lemma_regroup(a: Seq<char>, b: Seq<char>, c: Seq<char>, d: Seq<char>)
    ensures
        a + b + (Seq::<char>::empty() + c + d) == a + (b + c) + d,
{
    assert(a + b + (Seq::<char>::empty() + c + d) =~= a + (b + c) + d);
}

/// The blocks of a pair in front of others are read as the pair.
proof fn lemma_pair_read(pairs: Seq<PairView>, bs: Seq<BlockView>)
    requires
        pairs.len() > 0,
        fits(pairs[0].1),
        pairs_of_blocks(bs) == Ok::<_, BundleError>(pairs.skip(1)),
    ensures
        pairs_of_blocks(pair_blocks(pairs[0]) + bs) == Ok::<_, BundleError>(pairs),
{
    let pair = pairs[0];
    let blocks = pair_blocks(pair) + bs;
    lemma_labels();
    lemma_config_roundtrip(pair.1);
    assert(blocks[0] == (PEM_LABEL_KEY@, pair.0));
    assert(blocks[1] == (PEM_LABEL_CONFIG@, config_bytes(pair.1)));
    assert(blocks.skip(2) =~= bs);
    assert(seq![pair] + pairs.skip(1) =~= pairs);
}

/// The two labels differ and hold no line break.
proof fn lemma_labels()
    ensures
        PEM_LABEL_KEY@ != PEM_LABEL_CONFIG@,
        !PEM_LABEL_KEY@.contains('\n'),
        !PEM_LABEL_CONFIG@.contains('\n'),
{
    reveal_strlit("ECH PRIVATE KEY");
    reveal_strlit("ECH CONFIG");
    assert(PEM_LABEL_KEY@.len() == 15);
    assert(PEM_LABEL_CONFIG@.len() == 10);
}

/// Every file adds a pair to a loaded key set, and every configuration in it fits
/// the wire format.
pub proof fn lemma_loaded_set(files: Seq<Seq<u8>>)
    requires
        files.len() > 0,
    ensures
        pairs_of_files(files) matches Ok(pairs) ==> {
            &&& pairs.len() >= files.len()
            &&& forall|i: int| 0 <= i < pairs.len() ==> fits((#[trigger] pairs[i]).1)
        },
{
    lemma_files_fit(files);
}

proof fn lemma_files_fit(files: Seq<Seq<u8>>)
    ensures
        pairs_of_files(files) matches Ok(pairs) ==> {
            &&& pairs.len() >= files.len()
            &&& forall|i: int| 0 <= i < pairs.len() ==> fits((#[trigger] pairs[i]).1)
        },
    decreases files.len(),
{
    if files.len() > 0 {
        lemma_files_fit(files.drop_last());
        if let Ok(done) = pairs_of_files(files.drop_last()) {
            if let Ok(more) = pairs_of_file(files.last()) {
                if let Ok(blocks) = pem_blocks(files.last()) {
                    lemma_blocks_fit(blocks);
                }
                let all = done + more;
                assert forall|i: int| 0 <= i < all.len() implies fits((#[trigger] all[i]).1) by {
                    if i < done.len() {
                        assert(all[i] == done[i]);
                    } else {
                        assert(all[i] == more[i - done.len()]);
                    }
                }
            }
        }
    }
}

proof fn lemma_blocks_fit(blocks: Seq<BlockView>)
    ensures
        pairs_of_blocks(blocks) matches Ok(pairs) ==> forall|i: int|
            0 <= i < pairs.len() ==> fits((#[trigger] pairs[i]).1),
    decreases blocks.len(),
{
    if let Ok(pairs) = pairs_of_blocks(blocks) {
        if blocks.len() > 0 {
            lemma_blocks_fit(blocks.skip(2));
            lemma_config_canonical(blocks[1].1);
            let more = pairs_of_blocks(blocks.skip(2))->Ok_0;
            assert forall|i: int| 0 <= i < pairs.len() implies fits((#[trigger] pairs[i]).1) by {
                if i > 0 {
                    assert(pairs[i] == more[i - 1]);
                }
            }
        }
    }
}

/// The text of a key pair: a block `ECH PRIVATE KEY` with the key, then a block
/// `ECH CONFIG` with the configuration.
pub proof fn lemma_pair_written_out(private_key: Seq<u8>, config: EchConfigView)
    ensures
        pair_text(private_key, config) == block_text("ECH PRIVATE KEY"@, private_key) + block_text(
            "ECH CONFIG"@,
            config_bytes(config),
        ),
{
}

/// Which blocks are key pairs: each pair is a block `ECH PRIVATE KEY` and a block
/// `ECH CONFIG` behind it that holds a configuration. The first block that breaks this
/// says what is wrong.
pub proof fn lemma_pairs_judged(blocks: Seq<BlockView>)
    ensures
        blocks.len() == 0 ==> pairs_of_blocks(blocks) == Ok::<_, BundleError>(
            Seq::<PairView>::empty(),
        ),
        blocks.len() > 0 && blocks[0].0 == "ECH CONFIG"@ ==> pairs_of_blocks(blocks) == Err::<
            Seq<PairView>,
            _,
        >(BundleError::ConfigBeforeKey),
        blocks.len() > 0 && blocks[0].0 != "ECH CONFIG"@ && blocks[0].0 != "ECH PRIVATE KEY"@
            ==> pairs_of_blocks(blocks) == Err::<Seq<PairView>, _>(BundleError::UnexpectedLabel),
        blocks.len() == 1 && blocks[0].0 == "ECH PRIVATE KEY"@ ==> pairs_of_blocks(blocks) == Err::<
            Seq<PairView>,
            _,
        >(BundleError::MissingConfig),
        blocks.len() > 1 && blocks[0].0 == "ECH PRIVATE KEY"@ && blocks[1].0 != "ECH CONFIG"@
            ==> pairs_of_blocks(blocks) == Err::<Seq<PairView>, _>(BundleError::ExpectedConfig),
        blocks.len() > 1 && blocks[0].0 == "ECH PRIVATE KEY"@ && blocks[1].0 == "ECH CONFIG"@
            ==> match decode_config(blocks[1].1) {
            None => pairs_of_blocks(blocks) == Err::<Seq<PairView>, _>(BundleError::BadConfig),
            Some(config) => match pairs_of_blocks(blocks.skip(2)) {
                Ok(more) => pairs_of_blocks(blocks) == Ok::<_, BundleError>(
                    seq![(blocks[0].1, config)] + more,
                ),
                Err(e) => pairs_of_blocks(blocks) == Err::<Seq<PairView>, _>(e),
            },
        },
{
    lemma_labels();
}

/// The pairs of files are the pairs of each file, in the order of the files. The first
/// file that is no key file, or holds no pair, is named with its place.
pub proof fn lemma_files_in_order(files: Seq<Seq<u8>>, file: Seq<u8>)
    requires
        files.len() < usize::MAX,
    ensures
        match (pairs_of_files(files), pairs_of_file(file)) {
            (Ok(a), Ok(b)) => pairs_of_files(files.push(file)) == if b.len() > 0 {
                Ok::<_, KeySetError>(a + b)
            } else {
                Err(KeySetError::NoPairs { index: files.len() as usize })
            },
            (Ok(_), Err(error)) => pairs_of_files(files.push(file)) == Err::<Seq<PairView>, _>(
                KeySetError::Bundle { index: files.len() as usize, error },
            ),
            (Err(e), _) => pairs_of_files(files.push(file)) == Err::<Seq<PairView>, _>(e),
        },
        pairs_of_files(Seq::empty()) == Ok::<_, KeySetError>(Seq::<PairView>::empty()),
{
    assert(files.push(file).drop_last() =~= files);
}

/// Files whose pairs can all be read are loaded exactly if no two pairs have one
/// configuration id; then the set holds all pairs in turn. Otherwise the error names an id
/// that two pairs have.
pub proof fn lemma_ids_must_differ(
    files: Seq<Seq<u8>>,
    pairs: Seq<PairView>,
    r: Result<EchKeySet, KeySetError>,
)
    requires
        loads(files, r),
        files.len() > 0,
        pairs_of_files(files) == Ok::<_, KeySetError>(pairs),
    ensures
        r is Ok <==> forall|i: int, j: int|
            0 <= i < j < pairs.len() ==> (#[trigger] pairs[i]).1.config_id != (
            #[trigger] pairs[j]).1.config_id,
        r matches Ok(set) ==> {
            &&& set.pairs@.len() == pairs.len()
            &&& forall|i: int|
                0 <= i < pairs.len() ==> (#[trigger] set.pairs@[i]).private_key@ == pairs[i].0
                    && set.pairs@[i].config@ == pairs[i].1
        },
        r matches Err(e) ==> (e matches KeySetError::DuplicateId { config_id } && exists|
            i: int,
            j: int,
        |
            0 <= i < j < pairs.len() && (#[trigger] pairs[i]).1.config_id == config_id && (
            #[trigger] pairs[j]).1.config_id == config_id),
{
    match r {
        Ok(set) => {
            assert forall|i: int| 0 <= i < pairs.len() implies (
            #[trigger] set.pairs@[i]).private_key@ == pairs[i].0 && set.pairs@[i].config@
                == pairs[i].1 by {
                assert(pair_views(set.pairs@)[i] == set.pairs@[i]@);
            }
        },
        Err(KeySetError::DuplicateId { config_id }) => {
            let i = choose|i: int| #[trigger]
                is_first_duplicate(pairs, i) && pairs[i].1.config_id == config_id;
            let j = choose|j: int|
                i < j < pairs.len() && (#[trigger] pairs[j]).1.config_id == pairs[i].1.config_id;
            assert(pairs[i].1.config_id == pairs[j].1.config_id);
        },
        Err(_) => {},
    }
}

/// Files and key pairs are taken one by one, in their order; a set publishes the
/// configurations of its pairs in that order.
pub proof fn lemma_pairs_taken(v: Seq<EchKeyPair>, files: Seq<Vec<u8>>, set: EchKeySet, i: int)
    ensures
        pair_views(v).len() == v.len(),
        0 <= i < v.len() ==> pair_views(v)[i].0 == v[i].private_key@ && pair_views(v)[i].1
            == v[i].config@,
        files_of(files).len() == files.len(),
        0 <= i < files.len() ==> files_of(files)[i] == files[i]@,
        set.configs().len() == set.pairs@.len(),
        0 <= i < set.pairs@.len() ==> set.configs()[i] == set.pairs@[i].config@,
{
}

/// Without files there is nothing to load, and files that cannot all be read as pairs are
/// refused with what is wrong.
pub proof fn lemma_unloadable(files: Seq<Seq<u8>>, r: Result<EchKeySet, KeySetError>)
    requires
        loads(files, r),
    ensures
        files.len() == 0 ==> (r matches Err(e) && e == KeySetError::Empty),
        files.len() > 0 ==> (pairs_of_files(files) matches Err(e) ==> (r matches Err(f) && f == e)),
{
}

} // verus!
