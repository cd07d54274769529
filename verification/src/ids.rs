//! Fixed-width identifiers: block headers, transactions, channel messages,
//! notes and keys.
//!
//! An identifier is thirty-two bytes, held as two big-endian words so that
//! comparing the words compares the bytes.

use vstd::prelude::*;

verus! {

/// The number a big-endian byte string spells.
pub open spec fn be_value(bytes: Seq<u8>) -> nat
    decreases bytes.len(),
{
    if bytes.len() == 0 {
        0
    } else {
        be_value(bytes.drop_last()) * 256 + bytes.last() as nat
    }
}

/// The last `n` big-endian bytes of `v`.
pub open spec fn be_bytes(v: nat, n: nat) -> Seq<u8>
    decreases n,
{
    if n == 0 {
        Seq::empty()
    } else {
        be_bytes(v / 256, (n - 1) as nat).push((v % 256) as u8)
    }
}

/// `256` to the power `n`.
pub open spec fn pow256(n: nat) -> nat
    decreases n,
{
    if n == 0 {
        1
    } else {
        256 * pow256((n - 1) as nat)
    }
}

/// The strict order on words that the byte order induces.
pub open spec fn words_lt(a: (u128, u128), b: (u128, u128)) -> bool {
    a.0 < b.0 || (a.0 == b.0 && a.1 < b.1)
}

/// A number of `n` bytes is spelled by its `n` bytes.
pub proof fn law_be_value_of_be_bytes(v: nat, n: nat)
    requires
        v < pow256(n),
    ensures
        be_bytes(v, n).len() == n,
        be_value(be_bytes(v, n)) == v,
    decreases n,
{
    if n > 0 {
        assert(v / 256 < pow256((n - 1) as nat)) by (nonlinear_arith)
            requires
                v < 256 * pow256((n - 1) as nat),
        ;
        law_be_value_of_be_bytes(v / 256, (n - 1) as nat);
        let bytes = be_bytes(v, n);
        assert(bytes.drop_last() =~= be_bytes(v / 256, (n - 1) as nat));
        assert(v == (v / 256) * 256 + v % 256) by (nonlinear_arith);
    }
}

proof fn lemma_pow256_word()
    ensures
        pow256(16) == u128::MAX as nat + 1,
        pow256(0) == 1,
{
    reveal_with_fuel(pow256, 17);
}

proof fn lemma_pow256_grows(m: nat, n: nat)
    requires
        m <= n,
    ensures
        1 <= pow256(m) <= pow256(n),
    decreases n,
{
    if m < n {
        lemma_pow256_grows(m, (n - 1) as nat);
    } else if n > 0 {
        lemma_pow256_grows((m - 1) as nat, (n - 1) as nat);
    }
}

/// Thirty-two bytes as two big-endian words.
#[derive(Clone, Copy, Debug, PartialEq, Eq, PartialOrd, Ord, Hash, Structural)]
pub struct Bytes32 {
    pub hi: u128,
    pub lo: u128,
}

/// Reads the sixteen bytes of `bytes` from `start` as a big-endian word.
fn read_word(bytes: &[u8; 32], start: usize) -> (word: u128)
    requires
        start <= 16,
    ensures
        word as nat == be_value(bytes@.subrange(start as int, start + 16)),
{
    let mut word: u128 = 0;
    let mut i: usize = 0;
    while i < 16
        invariant
            start <= 16,
            i <= 16,
            word as nat == be_value(bytes@.subrange(start as int, start + i)),
            word as nat + 1 <= pow256(i as nat),
        decreases 16 - i,
    {
        let byte: u8 = bytes[start + i];
        proof {
            let next = bytes@.subrange(start as int, start + i + 1);
            assert(next.drop_last() =~= bytes@.subrange(start as int, start + i));
            assert(next.last() == byte);
            lemma_pow256_word();
            lemma_pow256_grows(i as nat + 1, 16);
            assert(pow256(i as nat + 1) == 256 * pow256(i as nat));
        }
        word = word * 256 + byte as u128;
        i = i + 1;
    }
    word
}

/// Appends the last `n` big-endian bytes of `v` to `out`.
fn push_word(v: u128, n: usize, out: &mut Vec<u8>)
    ensures
        final(out)@ == old(out)@ + be_bytes(v as nat, n as nat),
    decreases n,
{
    if n > 0 {
        push_word(v / 256, n - 1, out);
        out.push((v % 256) as u8);
    }
}

impl Bytes32 {
    /// The two words that thirty-two bytes spell.
    pub open spec fn of_bytes(bytes: Seq<u8>) -> Bytes32 {
        Bytes32 {
            hi: be_value(bytes.subrange(0, 16)) as u128,
            lo: be_value(bytes.subrange(16, 32)) as u128,
        }
    }

    /// The thirty-two bytes behind the words.
    pub open spec fn bytes(self) -> Seq<u8> {
        be_bytes(self.hi as nat, 16) + be_bytes(self.lo as nat, 16)
    }

    pub fn from_bytes(bytes: [u8; 32]) -> (res: Bytes32)
        ensures
            res == Bytes32::of_bytes(bytes@),
    {
        let hi: u128 = read_word(&bytes, 0);
        let lo: u128 = read_word(&bytes, 16);
        Bytes32 { hi, lo }
    }

    pub fn to_bytes(&self) -> (res: Vec<u8>)
        ensures
            res@ == self.bytes(),
    {
        let mut out: Vec<u8> = Vec::new();
        push_word(self.hi, 16, &mut out);
        push_word(self.lo, 16, &mut out);
        out
    }

    /// The byte form of an identifier reads back as the identifier.
    pub proof fn law_bytes_round_trip(self)
        ensures
            self.bytes().len() == 32,
            Bytes32::of_bytes(self.bytes()) == self,
    {
        lemma_pow256_word();
        law_be_value_of_be_bytes(self.hi as nat, 16);
        law_be_value_of_be_bytes(self.lo as nat, 16);
        assert(self.bytes().subrange(0, 16) =~= be_bytes(self.hi as nat, 16));
        assert(self.bytes().subrange(16, 32) =~= be_bytes(self.lo as nat, 16));
    }
}

/// A value usable as a key: comparable for identity.
pub trait Key: Copy + Sized {
    fn same(&self, other: &Self) -> (res: bool)
        ensures
            res == (*self == *other),
    ;
}

/// A key that its words identify, and order.
pub trait OrderedKey: Key {
    spec fn words(self) -> (u128, u128);

    proof fn words_identify(a: Self, b: Self)
        ensures
            a.words() == b.words() ==> a == b,
    ;

    fn precedes(&self, other: &Self) -> (res: bool)
        ensures
            res == words_lt(self.words(), other.words()),
    ;
}

/// Identifier of an L1 block header.
#[derive(Clone, Copy, Debug, PartialEq, Eq, PartialOrd, Ord, Hash, Structural)]
pub struct HeaderId(pub Bytes32);

impl HeaderId {
    pub fn from_bytes(bytes: [u8; 32]) -> (res: HeaderId)
        ensures
            res.0 == Bytes32::of_bytes(bytes@),
    {
        HeaderId(Bytes32::from_bytes(bytes))
    }
}

impl Key for HeaderId {
    fn same(&self, other: &Self) -> (res: bool) {
        *self == *other
    }
}

impl OrderedKey for HeaderId {
    open spec fn words(self) -> (u128, u128) {
        (self.0.hi, self.0.lo)
    }

    proof fn words_identify(a: Self, b: Self) {
    }

    fn precedes(&self, other: &Self) -> (res: bool) {
        self.0.hi < other.0.hi || (self.0.hi == other.0.hi && self.0.lo < other.0.lo)
    }
}

/// Hash of a transaction.
#[derive(Clone, Copy, Debug, PartialEq, Eq, PartialOrd, Ord, Hash, Structural)]
pub struct TxHash(pub Bytes32);

impl TxHash {
    pub fn from_bytes(bytes: [u8; 32]) -> (res: TxHash)
        ensures
            res.0 == Bytes32::of_bytes(bytes@),
    {
        TxHash(Bytes32::from_bytes(bytes))
    }
}

impl Key for TxHash {
    fn same(&self, other: &Self) -> (res: bool) {
        *self == *other
    }
}

impl OrderedKey for TxHash {
    open spec fn words(self) -> (u128, u128) {
        (self.0.hi, self.0.lo)
    }

    proof fn words_identify(a: Self, b: Self) {
    }

    fn precedes(&self, other: &Self) -> (res: bool) {
        self.0.hi < other.0.hi || (self.0.hi == other.0.hi && self.0.lo < other.0.lo)
    }
}

/// Identifier of a channel message or channel configuration.
#[derive(Clone, Copy, Debug, PartialEq, Eq, PartialOrd, Ord, Hash, Structural)]
pub struct MsgId(pub Bytes32);

impl MsgId {
    pub fn from_bytes(bytes: [u8; 32]) -> (res: MsgId)
        ensures
            res.0 == Bytes32::of_bytes(bytes@),
    {
        MsgId(Bytes32::from_bytes(bytes))
    }

    /// The all-zero id that the first message of a channel chains from.
    pub open spec fn spec_root() -> MsgId {
        MsgId(Bytes32 { hi: 0, lo: 0 })
    }

    #[verifier::when_used_as_spec(spec_root)]
    pub fn root() -> (res: MsgId)
        ensures
            res == MsgId::spec_root(),
    {
        MsgId(Bytes32 { hi: 0, lo: 0 })
    }
}

impl Key for MsgId {
    fn same(&self, other: &Self) -> (res: bool) {
        *self == *other
    }
}

impl OrderedKey for MsgId {
    open spec fn words(self) -> (u128, u128) {
        (self.0.hi, self.0.lo)
    }

    proof fn words_identify(a: Self, b: Self) {
    }

    fn precedes(&self, other: &Self) -> (res: bool) {
        self.0.hi < other.0.hi || (self.0.hi == other.0.hi && self.0.lo < other.0.lo)
    }
}

/// Identifier of a channel.
#[derive(Clone, Copy, Debug, PartialEq, Eq, PartialOrd, Ord, Hash, Structural)]
pub struct ChannelId(pub Bytes32);

impl ChannelId {
    pub fn from_bytes(bytes: [u8; 32]) -> (res: ChannelId)
        ensures
            res.0 == Bytes32::of_bytes(bytes@),
    {
        ChannelId(Bytes32::from_bytes(bytes))
    }
}

impl Key for ChannelId {
    fn same(&self, other: &Self) -> (res: bool) {
        *self == *other
    }
}

impl OrderedKey for ChannelId {
    open spec fn words(self) -> (u128, u128) {
        (self.0.hi, self.0.lo)
    }

    proof fn words_identify(a: Self, b: Self) {
    }

    fn precedes(&self, other: &Self) -> (res: bool) {
        self.0.hi < other.0.hi || (self.0.hi == other.0.hi && self.0.lo < other.0.lo)
    }
}

/// Identifier of a note.
#[derive(Clone, Copy, Debug, PartialEq, Eq, PartialOrd, Ord, Hash, Structural)]
pub struct NoteId(pub Bytes32);

impl NoteId {
    pub fn from_bytes(bytes: [u8; 32]) -> (res: NoteId)
        ensures
            res.0 == Bytes32::of_bytes(bytes@),
    {
        NoteId(Bytes32::from_bytes(bytes))
    }
}

impl Key for NoteId {
    fn same(&self, other: &Self) -> (res: bool) {
        *self == *other
    }
}

impl OrderedKey for NoteId {
    open spec fn words(self) -> (u128, u128) {
        (self.0.hi, self.0.lo)
    }

    proof fn words_identify(a: Self, b: Self) {
    }

    fn precedes(&self, other: &Self) -> (res: bool) {
        self.0.hi < other.0.hi || (self.0.hi == other.0.hi && self.0.lo < other.0.lo)
    }
}

/// Identifier of an operation within a transaction.
#[derive(Clone, Copy, Debug, PartialEq, Eq, PartialOrd, Ord, Hash, Structural)]
pub struct OpId(pub Bytes32);

impl OpId {
    pub fn from_bytes(bytes: [u8; 32]) -> (res: OpId)
        ensures
            res.0 == Bytes32::of_bytes(bytes@),
    {
        OpId(Bytes32::from_bytes(bytes))
    }
}

impl Key for OpId {
    fn same(&self, other: &Self) -> (res: bool) {
        *self == *other
    }
}

impl OrderedKey for OpId {
    open spec fn words(self) -> (u128, u128) {
        (self.0.hi, self.0.lo)
    }

    proof fn words_identify(a: Self, b: Self) {
    }

    fn precedes(&self, other: &Self) -> (res: bool) {
        self.0.hi < other.0.hi || (self.0.hi == other.0.hi && self.0.lo < other.0.lo)
    }
}

/// Public key that owns a note.
#[derive(Clone, Copy, Debug, PartialEq, Eq, PartialOrd, Ord, Hash, Structural)]
pub struct ZkPublicKey(pub Bytes32);

impl ZkPublicKey {
    pub fn from_bytes(bytes: [u8; 32]) -> (res: ZkPublicKey)
        ensures
            res.0 == Bytes32::of_bytes(bytes@),
    {
        ZkPublicKey(Bytes32::from_bytes(bytes))
    }
}

impl Key for ZkPublicKey {
    fn same(&self, other: &Self) -> (res: bool) {
        *self == *other
    }
}

impl OrderedKey for ZkPublicKey {
    open spec fn words(self) -> (u128, u128) {
        (self.0.hi, self.0.lo)
    }

    proof fn words_identify(a: Self, b: Self) {
    }

    fn precedes(&self, other: &Self) -> (res: bool) {
        self.0.hi < other.0.hi || (self.0.hi == other.0.hi && self.0.lo < other.0.lo)
    }
}

/// Public key that signs channel operations.
#[derive(Clone, Copy, Debug, PartialEq, Eq, PartialOrd, Ord, Hash, Structural)]
pub struct Ed25519PublicKey(pub Bytes32);

impl Ed25519PublicKey {
    pub fn from_bytes(bytes: [u8; 32]) -> (res: Ed25519PublicKey)
        ensures
            res.0 == Bytes32::of_bytes(bytes@),
    {
        Ed25519PublicKey(Bytes32::from_bytes(bytes))
    }
}

impl Key for Ed25519PublicKey {
    fn same(&self, other: &Self) -> (res: bool) {
        *self == *other
    }
}

impl OrderedKey for Ed25519PublicKey {
    open spec fn words(self) -> (u128, u128) {
        (self.0.hi, self.0.lo)
    }

    proof fn words_identify(a: Self, b: Self) {
    }

    fn precedes(&self, other: &Self) -> (res: bool) {
        self.0.hi < other.0.hi || (self.0.hi == other.0.hi && self.0.lo < other.0.lo)
    }
}

} // verus!
