//! Key and viewing-key string derivation for a shielded-pool account.
//!
//! The crate's core is the unified container codec in [`zip316`]: it frames a
//! typed binary payload, diffuses it with a reversible byte permutation, and
//! renders the result as a checksum-protected text string. Around that core
//! sit the seed helpers and the full-viewing-key derivation entry point.

pub mod bech32;
pub mod frame;
pub mod jumble;
pub mod text;
pub mod varint;
pub mod zip316;

use vstd::prelude::*;
use vstd::string::StrSliceExecFns;
use vstd::string::StringSliceAdditionalSpecFns;

verus! {

/// The type code of an orchard-pool full viewing key inside a container.
pub const TYPECODE_ORCHARD: u64 = 3;

/// The raw byte length of an orchard full viewing key.
pub const ORCHARD_FVK_LEN: usize = 96;

/// Networks the tool can derive keys for.
#[derive(Clone, Copy, Debug, PartialEq, Eq, Structural)]
pub enum Network {
    Mainnet,
    Testnet,
    Regtest,
}

impl Network {
    /// The unified-address prefix of the network.
    pub fn ua_hrp(&self) -> (r: &'static str)
        ensures
            self is Mainnet ==> r@ == "j"@,
            self is Testnet ==> r@ == "jtest"@,
            self is Regtest ==> r@ == "jregtest"@,
    {
        match self {
            Network::Mainnet => "j",
            Network::Testnet => "jtest",
            Network::Regtest => "jregtest",
        }
    }

    /// The hierarchical-derivation coin type of the network.
    pub fn coin_type(&self) -> (r: u32)
        ensures
            self is Mainnet ==> r == 8133,
            self is Testnet ==> r == 8134,
            self is Regtest ==> r == 8135,
    {
        match self {
            Network::Mainnet => 8133,
            Network::Testnet => 8134,
            Network::Regtest => 8135,
        }
    }
}

/// Everything that can go wrong while handling seeds and deriving keys.
#[derive(Clone, Copy, Debug, PartialEq, Eq, Structural)]
pub enum KeysError {
    /// The seed is not valid base64, or its length is out of range.
    SeedInvalid,
    /// The unified-address prefix is empty or of the wrong shape.
    UAHrpInvalid,
    /// The coin type is outside the hardened-derivation range.
    CoinTypeInvalid,
    /// The account index is outside the hardened-derivation range.
    AccountInvalid,
    /// An internal invariant failed.
    Internal,
}

impl KeysError {
    /// A stable machine-readable code for the error.
    pub fn code(&self) -> (r: &'static str)
        ensures
            self is SeedInvalid ==> r@ == "seed_invalid"@,
            self is UAHrpInvalid ==> r@ == "ua_hrp_invalid"@,
            self is CoinTypeInvalid ==> r@ == "coin_type_invalid"@,
            self is AccountInvalid ==> r@ == "account_invalid"@,
            self is Internal ==> r@ == "internal"@,
    {
        match self {
            KeysError::SeedInvalid => "seed_invalid",
            KeysError::UAHrpInvalid => "ua_hrp_invalid",
            KeysError::CoinTypeInvalid => "coin_type_invalid",
            KeysError::AccountInvalid => "account_invalid",
            KeysError::Internal => "internal",
        }
    }
}

/// An ASCII whitespace byte.
pub open spec fn is_ascii_ws(b: u8) -> bool {
    b == 32 || (9 <= b <= 13)
}

/// The string with leading whitespace dropped.
pub open spec fn trim_front(s: Seq<u8>) -> Seq<u8>
    decreases s.len(),
{
    if s.len() > 0 && is_ascii_ws(s[0]) {
        trim_front(s.drop_first())
    } else {
        s
    }
}

/// The string with trailing whitespace dropped.
pub open spec fn trim_back(s: Seq<u8>) -> Seq<u8>
    decreases s.len(),
{
    if s.len() > 0 && is_ascii_ws(s[s.len() - 1]) {
        trim_back(s.drop_last())
    } else {
        s
    }
}

/// The string with whitespace dropped at both ends.
pub open spec fn trim_spec(s: Seq<u8>) -> Seq<u8> {
    trim_back(trim_front(s))
}

proof fn lemma_trim_front_at(s: Seq<u8>, k: nat)
    requires
        k <= s.len(),
        forall|j: int| 0 <= j < k ==> is_ascii_ws(#[trigger] s[j]),
        k == s.len() || !is_ascii_ws(s[k as int]),
    ensures
        trim_front(s) == s.skip(k as int),
    decreases k,
{
    if k == 0 {
        assert(s.skip(0) =~= s);
    } else {
        assert(is_ascii_ws(s[0]));
        let d = s.drop_first();
        assert(d =~= s.skip(1));
        assert(forall|j: int| 0 <= j < k - 1 ==> is_ascii_ws(#[trigger] d[j]));
        lemma_trim_front_at(d, (k - 1) as nat);
        assert(d.skip(k - 1) =~= s.skip(k as int));
    }
}

proof fn lemma_trim_back_at(s: Seq<u8>, e: nat)
    requires
        e <= s.len(),
        forall|j: int| e <= j < s.len() ==> is_ascii_ws(#[trigger] s[j]),
        e == 0 || !is_ascii_ws(s[e - 1]),
    ensures
        trim_back(s) == s.take(e as int),
    decreases s.len(),
{
    if e == s.len() {
        if s.len() == 0 {
            assert(s.take(0) =~= s);
        } else {
            assert(!is_ascii_ws(s[s.len() - 1]));
            assert(s.take(e as int) =~= s);
        }
    } else {
        assert(is_ascii_ws(s[s.len() - 1]));
        let d = s.drop_last();
        assert(forall|j: int| e <= j < d.len() ==> is_ascii_ws(#[trigger] d[j]));
        if e > 0 {
            assert(d[e - 1] == s[e - 1]);
        }
        lemma_trim_back_at(d, e);
        assert(d.take(e as int) =~= s.take(e as int));
    }
}

/// A string with no whitespace byte is its own trimmed form.
pub proof fn lemma_trim_ws_free(s: Seq<u8>)
    requires
        forall|i: int| 0 <= i < s.len() ==> !is_ascii_ws(#[trigger] s[i]),
    ensures
        trim_spec(s) == s,
{
    lemma_trim_front_at(s, 0);
    assert(s.skip(0) =~= s);
    lemma_trim_back_at(s, s.len());
    assert(s.take(s.len() as int) =~= s);
}

/// Drops ASCII whitespace from both ends of a byte string.
fn trim_ascii(s: &Vec<u8>) -> (r: Vec<u8>)
    ensures
        r@ == trim_spec(s@),
{
    let n = s.len();
    let mut start: usize = 0;
    while start < n && (s[start] == 32 || (s[start] >= 9 && s[start] <= 13))
        invariant
            0 <= start <= n == s@.len(),
            forall|j: int| 0 <= j < start ==> is_ascii_ws(#[trigger] s@[j]),
        decreases n - start,
    {
        start = start + 1;
    }
    let mut end: usize = n;
    while end > start && (s[end - 1] == 32 || (s[end - 1] >= 9 && s[end - 1] <= 13))
        invariant
            start <= end <= n == s@.len(),
            forall|j: int| 0 <= j < start ==> is_ascii_ws(#[trigger] s@[j]),
            start == n || !is_ascii_ws(s@[start as int]),
            forall|j: int| end <= j < n ==> is_ascii_ws(#[trigger] s@[j]),
        decreases end,
    {
        end = end - 1;
    }
    let r = crate::text::subvec(s, start, end);
    proof {
        lemma_trim_front_at(s@, start as nat);
        let t = s@.skip(start as int);
        assert(forall|j: int| end - start <= j < t.len() ==> #[trigger] t[j] == s@[j + start]);
        assert(forall|j: int| end - start <= j < t.len() ==> is_ascii_ws(#[trigger] t[j]));
        if end > start {
            assert(t[end - start - 1] == s@[end - 1]);
            assert(!is_ascii_ws(t[end - start - 1]));
        }
        lemma_trim_back_at(t, (end - start) as nat);
        assert(t.take(end - start) =~= s@.subrange(start as int, end as int));
    }
    r
}

/// What the base64 encoding of a byte string looks like, as ASCII bytes: a
/// pure function of the bytes alone.
pub uninterp spec fn base64_of(b: Seq<u8>) -> Seq<u8>;

/// Relies on base64's standard padded engine `encode`: deterministic in the
/// input bytes, producing text over the standard alphabet and `=`, all of
/// which are printable ASCII.
#[verifier::external_body]
fn b64_encode(b: &[u8]) -> (r: String)
    ensures
        r@ == base64_of(b@).map_values(|x: u8| x as char),
        forall|i: int| 0 <= i < r@.len() ==> 33 <= (#[trigger] r@[i]) as u32 <= 126,
{
    base64::Engine::encode(&base64::engine::general_purpose::STANDARD, b)
}

/// Relies on base64's standard padded engine `decode`: it accepts exactly
/// the canonical encodings, returning the bytes whose encoding the input is.
#[verifier::external_body]
fn b64_decode(s: &[u8]) -> (r: Result<Vec<u8>, ()>)
    ensures
        (r matches Ok(v) ==> base64_of(v@) == s@),
        (r matches Ok(v) ==> forall|b: Seq<u8>| #[trigger] base64_of(b) == s@ ==> b == v@),
        (r matches Err(e) ==> !(exists|b: Seq<u8>| #[trigger] base64_of(b) == s@)),
{
    base64::Engine::decode(&base64::engine::general_purpose::STANDARD, s).map_err(|_| ())
}

/// Relies on rand's `OsRng::fill_bytes`: fills the buffer from the operating
/// system's randomness source; nothing is assumed of the values. Aborts only
/// if that source itself fails.
#[verifier::external_body]
fn os_random_bytes(n: usize) -> (r: Vec<u8>)
    ensures
        r@.len() == n,
{
    let mut buf = vec![0u8; n];
    rand::RngCore::fill_bytes(&mut rand::rngs::OsRng, buf.as_mut_slice());
    buf
}

/// What the key hierarchy derives for a seed, coin type and account: the
/// raw full-viewing-key bytes, a deterministic function of exactly these
/// three arguments; `None` where the coin type or account is out of the
/// hardened-derivation range, or where the seed yields invalid key material.
pub uninterp spec fn fvk_bytes_of(seed: Seq<u8>, coin_type: u32, account: u32) -> Option<Seq<u8>>;

/// Relies on zip32's `AccountId::try_from` and orchard's
/// `SpendingKey::from_zip32_seed`, `FullViewingKey::from` and
/// `FullViewingKey::to_bytes`: one deterministic derivation from plain
/// values to the 96 raw viewing-key bytes, with every failure returned as an
/// error, never a panic.
#[verifier::external_body]
fn derive_fvk_bytes(seed: &[u8], coin_type: u32, account: u32) -> (r: Option<Vec<u8>>)
    ensures
        (r matches Some(v) ==> fvk_bytes_of(seed@, coin_type, account) == Some(v@) && v@.len()
            == 96),
        (r is None ==> fvk_bytes_of(seed@, coin_type, account) is None),
{
    let account = match zip32::AccountId::try_from(account) {
        Ok(a) => a,
        Err(_) => return None,
    };
    let sk = match orchard::keys::SpendingKey::from_zip32_seed(seed, coin_type, account) {
        Ok(sk) => sk,
        Err(_) => return None,
    };
    let fvk = orchard::keys::FullViewingKey::from(&sk);
    Some(fvk.to_bytes().to_vec())
}

/// Generates a fresh random seed of `bytes` bytes, base64-encoded.
///
/// Accepts exactly the lengths the hierarchical derivation allows.
pub fn generate_seed_base64(bytes: usize) -> (r: Result<String, KeysError>)
    ensures
        r is Err <==> !(32 <= bytes <= 252),
        (r matches Err(e) ==> e == KeysError::SeedInvalid),
        32 <= bytes <= 252 ==> (r matches Ok(s) && (exists|b: Seq<u8>|
            b.len() == bytes && s@ == (#[trigger] base64_of(b)).map_values(|x: u8| x as char)
                && trim_spec(base64_of(b)) == base64_of(b) && (forall|i: int|
                0 <= i < base64_of(b).len() ==> 33 <= #[trigger] base64_of(b)[i] <= 126))),
{
    if bytes < 32 || bytes > 252 {
        return Err(KeysError::SeedInvalid);
    }
    let seed = os_random_bytes(bytes);
    let s = b64_encode(seed.as_slice());
    proof {
        let enc = base64_of(seed@);
        assert forall|i: int| 0 <= i < enc.len() implies 33 <= #[trigger] enc[i] <= 126 by {
            assert(s@[i] == (enc[i] as char));
            assert(33 <= s@[i] as u32 <= 126);
            assert((enc[i] as char) as u32 == enc[i]);
        }
        assert(forall|i: int| 0 <= i < enc.len() ==> !is_ascii_ws(#[trigger] enc[i]));
        lemma_trim_ws_free(enc);
        assert(seed@.len() == bytes && s@ == enc.map_values(|x: u8| x as char));
    }
    Ok(s)
}

/// Decodes a base64 seed string, trimming surrounding whitespace, and
/// accepts exactly the canonical encodings of seeds of allowed length.
pub fn decode_seed_base64(seed_base64: &str) -> (r: Result<Vec<u8>, KeysError>)
    ensures
        (r matches Err(e) ==> e == KeysError::SeedInvalid),
        (r matches Ok(v) ==> base64_of(v@) == trim_spec(seed_base64.spec_bytes()) && 32 <= v@.len()
            <= 252),
        forall|b: Seq<u8>|
            (#[trigger] base64_of(b) == trim_spec(seed_base64.spec_bytes()) && 32 <= b.len()
                <= 252) ==> (r matches Ok(v) && v@ == b),
{
    let sb = seed_base64.as_bytes_vec();
    let t = trim_ascii(&sb);
    match b64_decode(t.as_slice()) {
        Err(_) => Err(KeysError::SeedInvalid),
        Ok(v) => {
            if v.len() < 32 || v.len() > 252 {
                return Err(KeysError::SeedInvalid);
            }
            Ok(v)
        },
    }
}

/// What the viewing-key prefix for a unified-address prefix is: the fixed
/// infix inserted after the leading byte, or an error for the wrong shape.
pub open spec fn ufvk_hrp_spec(ua: Seq<u8>) -> Result<Seq<u8>, KeysError> {
    let t = trim_spec(ua);
    if t.len() == 0 {
        Err(KeysError::UAHrpInvalid)
    } else if t[0] != 106 {
        Err(KeysError::UAHrpInvalid)
    } else if exists|i: int| 0 <= i < t.len() && #[trigger] t[i] >= 128 {
        Err(KeysError::UAHrpInvalid)
    } else {
        Ok(seq![106u8, 118u8, 105u8, 101u8, 119u8] + t.skip(1))
    }
}

/// Maps a unified-address prefix to the matching viewing-key prefix.
///
/// The container's prefix is the address prefix with a fixed infix inserted
/// after its leading byte, so `"j"` becomes `"jview"` and `"jregtest"`
/// becomes `"jviewregtest"`.
pub fn ufvk_hrp_from_ua_hrp(ua_hrp: &str) -> (r: Result<String, KeysError>)
    ensures
        match r {
            Ok(s) => (ufvk_hrp_spec(ua_hrp.spec_bytes()) matches Ok(b) && s@ == b.map_values(
                |x: u8| x as char,
            )),
            Err(e) => ufvk_hrp_spec(ua_hrp.spec_bytes()) == Err::<Seq<u8>, KeysError>(e),
        },
{
    let ub = ua_hrp.as_bytes_vec();
    let t = trim_ascii(&ub);
    if t.len() == 0 {
        return Err(KeysError::UAHrpInvalid);
    }
    if t[0] != 106 {
        return Err(KeysError::UAHrpInvalid);
    }
    let mut i: usize = 0;
    while i < t.len()
        invariant
            0 <= i <= t@.len(),
            t@ == trim_spec(ua_hrp.spec_bytes()),
            t@.len() > 0 && t@[0] == 106,
            forall|j: int| 0 <= j < i ==> #[trigger] t@[j] < 128,
        decreases t@.len() - i,
    {
        if t[i] >= 128 {
            proof {
                assert(0 <= i < t@.len() && t@[i as int] >= 128);
            }
            return Err(KeysError::UAHrpInvalid);
        }
        i = i + 1;
    }
    let mut out: Vec<u8> = Vec::new();
    out.push(106);
    out.push(118);
    out.push(105);
    out.push(101);
    out.push(119);
    let ghost head = seq![106u8, 118u8, 105u8, 101u8, 119u8];
    proof {
        assert(out@ =~= head);
    }
    let mut k: usize = 1;
    while k < t.len()
        invariant
            1 <= k <= t@.len(),
            t@ == trim_spec(ua_hrp.spec_bytes()),
            t@.len() > 0 && t@[0] == 106,
            forall|j: int| 0 <= j < t@.len() ==> #[trigger] t@[j] < 128,
            out@ == head + t@.subrange(1, k as int),
        decreases t@.len() - k,
    {
        out.push(t[k]);
        proof {
            assert(out@ =~= head + t@.subrange(1, (k + 1) as int));
        }
        k = k + 1;
    }
    proof {
        assert(t@.subrange(1, t@.len() as int) =~= t@.skip(1));
        assert(out@ =~= head + t@.skip(1));
        assert(!(exists|i: int| 0 <= i < t@.len() && #[trigger] t@[i] >= 128));
        assert(forall|j: int| 0 <= j < out@.len() ==> #[trigger] out@[j] < 128);
    }
    Ok(crate::zip316::ascii_to_string(out))
}

/// Derives the text-encoded full viewing key for a seed, a unified-address
/// prefix, a coin type and an account index.
///
/// Validates the coin type, the account and the prefix, decodes the seed,
/// derives the raw viewing-key bytes through the key hierarchy, and packages
/// them as a unified container under the viewing-key prefix.
pub fn ufvk_from_seed_base64(seed_base64: &str, ua_hrp: &str, coin_type: u32, account: u32) -> (r:
    Result<String, KeysError>)
    ensures
        coin_type >= 0x8000_0000 ==> r == Err::<String, KeysError>(KeysError::CoinTypeInvalid),
        coin_type < 0x8000_0000 && account >= 0x8000_0000 ==> r == Err::<String, KeysError>(
            KeysError::AccountInvalid,
        ),
        coin_type < 0x8000_0000 && account < 0x8000_0000 && ufvk_hrp_spec(ua_hrp.spec_bytes())
            is Err ==> r == Err::<String, KeysError>(KeysError::UAHrpInvalid),
        coin_type < 0x8000_0000 && account < 0x8000_0000 && ufvk_hrp_spec(ua_hrp.spec_bytes())
            is Ok && !(exists|b: Seq<u8>|
            #[trigger] base64_of(b) == trim_spec(seed_base64.spec_bytes()) && 32 <= b.len()
                <= 252) ==> r == Err::<String, KeysError>(KeysError::SeedInvalid),
        forall|b: Seq<u8>|
            (coin_type < 0x8000_0000 && account < 0x8000_0000 && ufvk_hrp_spec(
                ua_hrp.spec_bytes(),
            ) is Ok && #[trigger] base64_of(b) == trim_spec(seed_base64.spec_bytes()) && 32
                <= b.len() <= 252) ==> (match fvk_bytes_of(b, coin_type, account) {
                None => r == Err::<String, KeysError>(KeysError::SeedInvalid),
                Some(fvk) => match crate::zip316::encode_container_bytes(
                    ufvk_hrp_spec(ua_hrp.spec_bytes())->Ok_0,
                    TYPECODE_ORCHARD,
                    fvk,
                ) {
                    Err(ce) => r == Err::<String, KeysError>(KeysError::Internal),
                    Ok(bytes) => (r matches Ok(s) && s@ == bytes.map_values(|x: u8| x as char)),
                },
            }),
        r matches Ok(s) ==> coin_type < 0x8000_0000 && account < 0x8000_0000 && (ufvk_hrp_spec(
            ua_hrp.spec_bytes(),
        ) matches Ok(hrpb) && (exists|fvk: Seq<u8>|
            fvk.len() == ORCHARD_FVK_LEN && (#[trigger] crate::zip316::encode_container_bytes(
                hrpb,
                TYPECODE_ORCHARD,
                fvk,
            ) matches Ok(bytes) && s@ == bytes.map_values(|x: u8| x as char)))),
{
    if coin_type >= 0x8000_0000 {
        return Err(KeysError::CoinTypeInvalid);
    }
    if account >= 0x8000_0000 {
        return Err(KeysError::AccountInvalid);
    }
    let ufvk_hrp = match ufvk_hrp_from_ua_hrp(ua_hrp) {
        Err(e) => {
            return Err(e);
        },
        Ok(h) => h,
    };
    let seed = match decode_seed_base64(seed_base64) {
        Err(e) => {
            return Err(e);
        },
        Ok(v) => v,
    };
    let fvk_bytes = match derive_fvk_bytes(seed.as_slice(), coin_type, account) {
        None => {
            proof {
                assert forall|b: Seq<u8>|
                    #[trigger] base64_of(b) == trim_spec(seed_base64.spec_bytes()) && 32 <= b.len()
                        <= 252 implies b == seed@ && fvk_bytes_of(b, coin_type, account)
                    is None by {
                    assert(b == seed@);
                }
            }
            return Err(KeysError::SeedInvalid);
        },
        Some(v) => v,
    };
    if fvk_bytes.len() != ORCHARD_FVK_LEN {
        return Err(KeysError::Internal);
    }
    let hrp_str = ufvk_hrp.as_str();
    proof {
        let hb = ufvk_hrp_spec(ua_hrp.spec_bytes())->Ok_0;
        assert(forall|j: int| 0 <= j < hb.len() ==> #[trigger] hb[j] < 128) by {
            let t = trim_spec(ua_hrp.spec_bytes());
            assert(forall|j: int| 0 <= j < t.skip(1).len() ==> #[trigger] t.skip(1)[j] == t[j + 1]);
        }
        assert(vstd::utf8::is_ascii_chars(hrp_str@)) by {
            assert(forall|j: int|
                0 <= j < hrp_str@.len() ==> #[trigger] hrp_str@[j] == (hb[j] as char));
        }
        vstd::utf8::is_ascii_chars_encode_utf8(hrp_str@);
        assert(hrp_str.spec_bytes() =~= hb);
    }
    let result = crate::zip316::encode_unified_container(
        hrp_str,
        TYPECODE_ORCHARD,
        fvk_bytes.as_slice(),
    );
    proof {
        assert forall|b: Seq<u8>|
            #[trigger] base64_of(b) == trim_spec(seed_base64.spec_bytes()) && 32 <= b.len()
                <= 252 implies b == seed@ && fvk_bytes_of(b, coin_type, account) == Some(
            fvk_bytes@,
        ) by {
            assert(b == seed@);
        }
    }
    match result {
        Err(_) => Err(KeysError::Internal),
        Ok(s) => Ok(s),
    }
}

} // verus!
