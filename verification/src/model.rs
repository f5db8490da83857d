//! Entity model: the record shapes and their fixed-width big-endian key
//! encodings. An expiry-index key is the concatenation of an 8-byte deadline
//! (milliseconds) and an 8-byte token identifier; ordering such keys by raw
//! bytes is the same as ordering by `(deadline, identifier)`, which this
//! module proves.

use vstd::prelude::*;

verus! {

/// The 8-byte big-endian encoding of a 64-bit value.
pub open spec fn spec_u64_to_be_bytes(v: u64) -> Seq<u8> {
    seq![
        (v >> 56u64) as u8,
        (v >> 48u64) as u8,
        (v >> 40u64) as u8,
        (v >> 32u64) as u8,
        (v >> 24u64) as u8,
        (v >> 16u64) as u8,
        (v >> 8u64) as u8,
        v as u8,
    ]
}

/// The 64-bit value read back from 8 big-endian bytes.
pub open spec fn spec_u64_from_be_bytes(s: Seq<u8>) -> u64
    recommends
        s.len() == 8,
{
    ((s[0] as u64) << 56u64) | ((s[1] as u64) << 48u64) | ((s[2] as u64) << 40u64) | ((
    s[3] as u64) << 32u64) | ((s[4] as u64) << 24u64) | ((s[5] as u64) << 16u64) | ((
    s[6] as u64) << 8u64) | (s[7] as u64)
}

pub fn u64_to_be_bytes(v: u64) -> (r: [u8; 8])
    ensures
        r@ == spec_u64_to_be_bytes(v),
{
    let r: [u8; 8] = [
        #[verifier::truncate] ((v >> 56u64) as u8),
        #[verifier::truncate] ((v >> 48u64) as u8),
        #[verifier::truncate] ((v >> 40u64) as u8),
        #[verifier::truncate] ((v >> 32u64) as u8),
        #[verifier::truncate] ((v >> 24u64) as u8),
        #[verifier::truncate] ((v >> 16u64) as u8),
        #[verifier::truncate] ((v >> 8u64) as u8),
        #[verifier::truncate] (v as u8),
    ];
    proof {
        assert(r@ =~= spec_u64_to_be_bytes(v));
    }
    r
}

pub fn u64_from_be_bytes(s: &[u8]) -> (r: u64)
    requires
        s@.len() == 8,
    ensures
        r == spec_u64_from_be_bytes(s@),
{
    ((s[0] as u64) << 56u64) | ((s[1] as u64) << 48u64) | ((s[2] as u64) << 40u64) | ((
    s[3] as u64) << 32u64) | ((s[4] as u64) << 24u64) | ((s[5] as u64) << 16u64) | ((
    s[6] as u64) << 8u64) | (s[7] as u64)
}

/// Decoding inverts encoding: the bytes of `v` read back as `v`.
pub proof fn lemma_u64_be_bytes_roundtrip(v: u64)
    ensures
        spec_u64_from_be_bytes(spec_u64_to_be_bytes(v)) == v,
{
    let s = spec_u64_to_be_bytes(v);
    let b0 = s[0];
    let b1 = s[1];
    let b2 = s[2];
    let b3 = s[3];
    let b4 = s[4];
    let b5 = s[5];
    let b6 = s[6];
    let b7 = s[7];
    assert(((b0 as u64) << 56u64) | ((b1 as u64) << 48u64) | ((b2 as u64) << 40u64) | ((
    b3 as u64) << 32u64) | ((b4 as u64) << 24u64) | ((b5 as u64) << 16u64) | ((b6 as u64)
        << 8u64) | (b7 as u64) == v) by (bit_vector)
        requires
            b0 == (v >> 56u64) as u8,
            b1 == (v >> 48u64) as u8,
            b2 == (v >> 40u64) as u8,
            b3 == (v >> 32u64) as u8,
            b4 == (v >> 24u64) as u8,
            b5 == (v >> 16u64) as u8,
            b6 == (v >> 8u64) as u8,
            b7 == v as u8,
    ;
}

/// Strict lexicographic order on equal-length byte strings: some position
/// holds a smaller byte while every earlier position agrees.
pub open spec fn bytes_lt(a: Seq<u8>, b: Seq<u8>) -> bool
    recommends
        a.len() == b.len(),
{
    exists|i: int|
        #![trigger a[i], b[i]]
        0 <= i < a.len() && a[i] < b[i] && (forall|j: int| 0 <= j < i ==> a[j] == b[j])
}

/// Order on (deadline, identifier) pairs: by deadline, then by identifier.
pub open spec fn pair_lt(a: (u64, u64), b: (u64, u64)) -> bool {
    a.0 < b.0 || (a.0 == b.0 && a.1 < b.1)
}

/// Big-endian byte strings order exactly as the values they encode.
pub proof fn lemma_be_bytes_order(x: u64, y: u64)
    ensures
        bytes_lt(spec_u64_to_be_bytes(x), spec_u64_to_be_bytes(y)) <==> x < y,
{
    let a = spec_u64_to_be_bytes(x);
    let b = spec_u64_to_be_bytes(y);
    if x < y {
        assert(((x >> 56u64) as u8) < (y >> 56u64) as u8 || ((x >> 56u64) as u8 == (y >> 56u64) as u8
            && (((x >> 48u64) as u8) < (y >> 48u64) as u8 || ((x >> 48u64) as u8 == (y
            >> 48u64) as u8 && (((x >> 40u64) as u8) < (y >> 40u64) as u8 || ((x >> 40u64) as u8 == (
        y >> 40u64) as u8 && (((x >> 32u64) as u8) < (y >> 32u64) as u8 || ((x >> 32u64) as u8 == (y
            >> 32u64) as u8 && (((x >> 24u64) as u8) < (y >> 24u64) as u8 || ((x >> 24u64) as u8 == (
        y >> 24u64) as u8 && (((x >> 16u64) as u8) < (y >> 16u64) as u8 || ((x >> 16u64) as u8 == (y
            >> 16u64) as u8 && (((x >> 8u64) as u8) < (y >> 8u64) as u8 || ((x >> 8u64) as u8 == (y
            >> 8u64) as u8 && (x as u8) < (y as u8))))))))))))))) by (bit_vector)
            requires
                x < y,
        ;
        if a[0] < b[0] {
            assert(bytes_lt(a, b));
        } else if a[1] < b[1] {
            assert(bytes_lt(a, b));
        } else if a[2] < b[2] {
            assert(bytes_lt(a, b));
        } else if a[3] < b[3] {
            assert(bytes_lt(a, b));
        } else if a[4] < b[4] {
            assert(bytes_lt(a, b));
        } else if a[5] < b[5] {
            assert(bytes_lt(a, b));
        } else if a[6] < b[6] {
            assert(bytes_lt(a, b));
        } else {
            assert(a[7] < b[7]);
            assert(bytes_lt(a, b));
        }
    }
    if bytes_lt(a, b) {
        let i = choose|i: int|
            #![trigger a[i], b[i]]
            0 <= i < a.len() && a[i] < b[i] && (forall|j: int| 0 <= j < i ==> a[j] == b[j]);
        if i == 0 {
            assert(x < y) by (bit_vector)
                requires
                    ((x >> 56u64) as u8) < (y >> 56u64) as u8,
            ;
        } else if i == 1 {
            assert(x < y) by (bit_vector)
                requires
                    (x >> 56u64) as u8 == (y >> 56u64) as u8,
                    ((x >> 48u64) as u8) < (y >> 48u64) as u8,
            ;
        } else if i == 2 {
            assert(x < y) by (bit_vector)
                requires
                    (x >> 56u64) as u8 == (y >> 56u64) as u8,
                    (x >> 48u64) as u8 == (y >> 48u64) as u8,
                    ((x >> 40u64) as u8) < (y >> 40u64) as u8,
            ;
        } else if i == 3 {
            assert(x < y) by (bit_vector)
                requires
                    (x >> 56u64) as u8 == (y >> 56u64) as u8,
                    (x >> 48u64) as u8 == (y >> 48u64) as u8,
                    (x >> 40u64) as u8 == (y >> 40u64) as u8,
                    ((x >> 32u64) as u8) < (y >> 32u64) as u8,
            ;
        } else if i == 4 {
            assert(x < y) by (bit_vector)
                requires
                    (x >> 56u64) as u8 == (y >> 56u64) as u8,
                    (x >> 48u64) as u8 == (y >> 48u64) as u8,
                    (x >> 40u64) as u8 == (y >> 40u64) as u8,
                    (x >> 32u64) as u8 == (y >> 32u64) as u8,
                    ((x >> 24u64) as u8) < (y >> 24u64) as u8,
            ;
        } else if i == 5 {
            assert(x < y) by (bit_vector)
                requires
                    (x >> 56u64) as u8 == (y >> 56u64) as u8,
                    (x >> 48u64) as u8 == (y >> 48u64) as u8,
                    (x >> 40u64) as u8 == (y >> 40u64) as u8,
                    (x >> 32u64) as u8 == (y >> 32u64) as u8,
                    (x >> 24u64) as u8 == (y >> 24u64) as u8,
                    ((x >> 16u64) as u8) < (y >> 16u64) as u8,
            ;
        } else if i == 6 {
            assert(x < y) by (bit_vector)
                requires
                    (x >> 56u64) as u8 == (y >> 56u64) as u8,
                    (x >> 48u64) as u8 == (y >> 48u64) as u8,
                    (x >> 40u64) as u8 == (y >> 40u64) as u8,
                    (x >> 32u64) as u8 == (y >> 32u64) as u8,
                    (x >> 24u64) as u8 == (y >> 24u64) as u8,
                    (x >> 16u64) as u8 == (y >> 16u64) as u8,
                    ((x >> 8u64) as u8) < (y >> 8u64) as u8,
            ;
        } else {
            assert(x < y) by (bit_vector)
                requires
                    (x >> 56u64) as u8 == (y >> 56u64) as u8,
                    (x >> 48u64) as u8 == (y >> 48u64) as u8,
                    (x >> 40u64) as u8 == (y >> 40u64) as u8,
                    (x >> 32u64) as u8 == (y >> 32u64) as u8,
                    (x >> 24u64) as u8 == (y >> 24u64) as u8,
                    (x >> 16u64) as u8 == (y >> 16u64) as u8,
                    (x >> 8u64) as u8 == (y >> 8u64) as u8,
                    (x as u8) < (y as u8),
            ;
        }
    }
}

/// The 16-byte composite expiry-index key: deadline bytes, then token bytes.
pub open spec fn spec_key_bytes(deadline: u64, token: u64) -> Seq<u8> {
    spec_u64_to_be_bytes(deadline) + spec_u64_to_be_bytes(token)
}

/// Raw-byte order on composite keys is exactly (deadline, identifier) order:
/// the ordered key space doubles as a priority queue over deadlines.
pub proof fn lemma_key_bytes_order(d1: u64, t1: u64, d2: u64, t2: u64)
    ensures
        bytes_lt(spec_key_bytes(d1, t1), spec_key_bytes(d2, t2)) <==> pair_lt((d1, t1), (d2, t2)),
{
    let a = spec_key_bytes(d1, t1);
    let b = spec_key_bytes(d2, t2);
    let ad = spec_u64_to_be_bytes(d1);
    let bd = spec_u64_to_be_bytes(d2);
    let at = spec_u64_to_be_bytes(t1);
    let bt = spec_u64_to_be_bytes(t2);
    lemma_be_bytes_order(d1, d2);
    lemma_be_bytes_order(t1, t2);
    if pair_lt((d1, t1), (d2, t2)) {
        if d1 < d2 {
            let i = choose|i: int|
                #![trigger ad[i], bd[i]]
                0 <= i < ad.len() && ad[i] < bd[i] && (forall|j: int| 0 <= j < i ==> ad[j] == bd[j]);
            assert(a[i] < b[i]);
            assert(forall|j: int| 0 <= j < i ==> a[j] == b[j]);
            assert(bytes_lt(a, b));
        } else {
            assert(ad =~= bd);
            let i = choose|i: int|
                #![trigger at[i], bt[i]]
                0 <= i < at.len() && at[i] < bt[i] && (forall|j: int| 0 <= j < i ==> at[j] == bt[j]);
            assert(a[8 + i] < b[8 + i]);
            assert(forall|j: int| 0 <= j < 8 + i ==> a[j] == b[j]);
            assert(bytes_lt(a, b));
        }
    }
    if bytes_lt(a, b) {
        let i = choose|i: int|
            #![trigger a[i], b[i]]
            0 <= i < a.len() && a[i] < b[i] && (forall|j: int| 0 <= j < i ==> a[j] == b[j]);
        if i < 8 {
            assert(ad[i] < bd[i]);
            assert forall|j: int| 0 <= j < i implies ad[j] == bd[j] by {
                assert(a[j] == ad[j]);
                assert(b[j] == bd[j]);
            }
            assert(bytes_lt(ad, bd));
        } else {
            assert forall|j: int| 0 <= j < 8 implies ad[j] == bd[j] by {
                assert(a[j] == ad[j]);
                assert(b[j] == bd[j]);
            }
            assert(ad =~= bd);
            lemma_u64_be_bytes_injective(d1, d2);
            assert(at[i - 8] < bt[i - 8]);
            assert forall|j: int| 0 <= j < i - 8 implies at[j] == bt[j] by {
                assert(a[j + 8] == at[j]);
                assert(b[j + 8] == bt[j]);
            }
            assert(bytes_lt(at, bt));
        }
    }
}

/// Equal encodings come from equal values.
pub proof fn lemma_u64_be_bytes_injective(x: u64, y: u64)
    requires
        spec_u64_to_be_bytes(x) == spec_u64_to_be_bytes(y),
    ensures
        x == y,
{
    lemma_u64_be_bytes_roundtrip(x);
    lemma_u64_be_bytes_roundtrip(y);
}

/// A token's surrogate identifier, stored as its 8-byte big-endian key.
/// The view is the identifier value itself.
#[derive(Clone, Copy, Debug)]
pub struct TokenId(pub [u8; 8]);

impl View for TokenId {
    type V = u64;

    open spec fn view(&self) -> u64 {
        spec_u64_from_be_bytes(self.0@)
    }
}

impl TokenId {
    pub fn from_u64(v: u64) -> (r: TokenId)
        ensures
            r@ == v,
    {
        let r = TokenId(u64_to_be_bytes(v));
        proof {
            lemma_u64_be_bytes_roundtrip(v);
        }
        r
    }

    pub fn value(&self) -> (r: u64)
        ensures
            r == self@,
    {
        u64_from_be_bytes(self.0.as_slice())
    }
}

/// A user's external identity: an email address, which is also the user
/// record's key. The view is the character sequence.
#[derive(Clone, Debug)]
pub struct Email(pub String);

impl View for Email {
    type V = Seq<char>;

    open spec fn view(&self) -> Seq<char> {
        self.0@
    }
}

impl Email {
    /// Whether two identities are the same, by their characters.
    pub fn same_as(&self, other: &Email) -> (r: bool)
        ensures
            r == (self@ == other@),
    {
        self.0 == other.0
    }
}

/// A stored credential: the owning identity, the primary and secondary
/// secrets, the absolute deadline, and the creation timestamp used for
/// eviction tie-breaking. Times are milliseconds since the epoch.
#[derive(Clone, Debug)]
pub struct Token {
    pub owner: Email,
    pub moodle_session: String,
    pub csrf_session: String,
    pub deadline: u64,
    pub added: u64,
}

/// The mathematical shape of a credential.
#[verifier::ext_equal]
pub struct TokenModel {
    pub owner: Seq<char>,
    pub moodle_session: Seq<char>,
    pub csrf_session: Seq<char>,
    pub deadline: u64,
    pub added: u64,
}

impl View for Token {
    type V = TokenModel;

    open spec fn view(&self) -> TokenModel {
        TokenModel {
            owner: self.owner@,
            moodle_session: self.moodle_session@,
            csrf_session: self.csrf_session@,
            deadline: self.deadline,
            added: self.added,
        }
    }
}

impl Token {
    /// A copy of this record, equal to it field by field.
    pub fn duplicate(&self) -> (r: Token)
        ensures
            r == *self,
    {
        Token {
            owner: Email(self.owner.0.clone()),
            moodle_session: self.moodle_session.clone(),
            csrf_session: self.csrf_session.clone(),
            deadline: self.deadline,
            added: self.added,
        }
    }
}

/// A user record: the identity and the owned token identifiers, in
/// registration order.
#[derive(Clone, Debug)]
pub struct User {
    pub email: Email,
    pub tokens: Vec<TokenId>,
}

/// The mathematical shape of a user record.
#[verifier::ext_equal]
pub struct UserModel {
    pub email: Seq<char>,
    pub tokens: Seq<u64>,
}

impl View for User {
    type V = UserModel;

    open spec fn view(&self) -> UserModel {
        UserModel { email: self.email@, tokens: self.tokens@.map_values(|t: TokenId| t@) }
    }
}

/// An expiry-index key: 8 deadline bytes then 8 identifier bytes, both
/// big-endian, so that raw-byte order is (deadline, identifier) order.
/// The view is the decoded pair.
#[derive(Clone, Copy, Debug)]
pub struct UpdateQueueKey(pub [u8; 16]);

impl View for UpdateQueueKey {
    type V = (u64, u64);

    open spec fn view(&self) -> (u64, u64) {
        (
            spec_u64_from_be_bytes(self.0@.subrange(0, 8)),
            spec_u64_from_be_bytes(self.0@.subrange(8, 16)),
        )
    }
}

impl UpdateQueueKey {
    pub fn new(deadline: u64, token: TokenId) -> (r: UpdateQueueKey)
        ensures
            r@ == (deadline, token@),
    {
        let d = u64_to_be_bytes(deadline);
        let t = token.0;
        let r = UpdateQueueKey(
            [
                d[0],
                d[1],
                d[2],
                d[3],
                d[4],
                d[5],
                d[6],
                d[7],
                t[0],
                t[1],
                t[2],
                t[3],
                t[4],
                t[5],
                t[6],
                t[7],
            ],
        );
        proof {
            assert(r.0@.subrange(0, 8) =~= d@);
            assert(r.0@.subrange(8, 16) =~= t@);
            lemma_u64_be_bytes_roundtrip(deadline);
        }
        r
    }

    /// The deadline encoded in the first 8 bytes.
    pub fn deadline_millis(&self) -> (r: u64)
        ensures
            r == self@.0,
    {
        let d = u64_from_be_bytes(vstd::slice::slice_subrange(self.0.as_slice(), 0, 8));
        d
    }

    /// The token identifier encoded in the last 8 bytes.
    pub fn token_id(&self) -> (r: TokenId)
        ensures
            r@ == self@.1,
    {
        let s = vstd::slice::slice_subrange(self.0.as_slice(), 8, 16);
        let r = TokenId([s[0], s[1], s[2], s[3], s[4], s[5], s[6], s[7]]);
        proof {
            assert(r.0@ =~= self.0@.subrange(8, 16));
        }
        r
    }
}

/// The value stored under an expiry-index key: the identifier of the token
/// the entry denotes, saved so a reader need not decode the key.
#[derive(Clone, Copy, Debug)]
pub struct UpdateQueueItem {
    pub token: TokenId,
}

impl View for UpdateQueueItem {
    type V = u64;

    open spec fn view(&self) -> u64 {
        self.token@
    }
}

} // verus!
