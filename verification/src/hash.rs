//! FNV-style 64-bit fingerprints over sequences of machine words.
//!
//! Every fingerprint of the crate is [`fnv_words`] of a word sequence that
//! spells out the fingerprinted value.
use vstd::prelude::*;

verus! {

pub const FNV_OFFSET: u64 = 0xcbf2_9ce4_8422_2325;

pub const FNV_PRIME: u64 = 0x0000_0001_0000_01b3;

/// Inverse of [`FNV_PRIME`] modulo two to the sixty-fourth.
pub const FNV_PRIME_INVERSE: u64 = 0xb153_003e_aff6_957b;

/// Byte `index` of `value`, least significant byte first.
pub open spec fn le_byte(value: u64, index: int) -> u64 {
    (value >> ((8 * index) as u64)) & 0xff
}

/// One step of the hash: mix in a byte, multiply by the prime.
pub open spec fn fnv_byte(hash: u64, byte: u64) -> u64 {
    (hash ^ byte).wrapping_mul(FNV_PRIME)
}

/// The hash after the first `count` little-endian bytes of `value`.
pub open spec fn fnv_bytes(hash: u64, value: u64, count: nat) -> u64
    decreases count,
{
    if count == 0 {
        hash
    } else {
        fnv_byte(fnv_bytes(hash, value, (count - 1) as nat), le_byte(value, count - 1))
    }
}

/// The hash after all eight bytes of `value`.
pub open spec fn fnv_word(hash: u64, value: u64) -> u64 {
    fnv_bytes(hash, value, 8)
}

/// The hash after all words of `words`, in order.
pub open spec fn fnv_words(hash: u64, words: Seq<u64>) -> u64
    decreases words.len(),
{
    if words.len() == 0 {
        hash
    } else {
        fnv_word(fnv_words(hash, words.drop_last()), words.last())
    }
}

/// Mixes the eight bytes of `value` into `hash`.
pub fn update_hash(hash: u64, value: u64) -> (mixed: u64)
    ensures
        mixed == fnv_word(hash, value),
{
    let mut mixed: u64 = hash;
    let mut index: u64 = 0;
    while index < 8
        invariant
            index <= 8,
            mixed == fnv_bytes(hash, value, index as nat),
        decreases 8 - index,
    {
        mixed = mixed ^ ((value >> (8 * index)) & 0xff);
        mixed = mixed.wrapping_mul(FNV_PRIME);
        index = index + 1;
    }
    mixed
}

/// [`update_hash`] under the name that the tree fingerprints use.
pub fn tree_hash_value(hash: u64, value: u64) -> (mixed: u64)
    ensures
        mixed == fnv_word(hash, value),
{
    update_hash(hash, value)
}

/// A running fingerprint, with the words that went into it.
pub struct Fingerprint {
    pub hash: u64,
    pub words: Ghost<Seq<u64>>,
}

impl Fingerprint {
    pub open spec fn wf(self) -> bool {
        self.hash == fnv_words(FNV_OFFSET, self.words@)
    }

    pub fn new() -> (fingerprint: Self)
        ensures
            fingerprint.wf(),
            fingerprint.words@ == Seq::<u64>::empty(),
    {
        Fingerprint { hash: FNV_OFFSET, words: Ghost(Seq::empty()) }
    }

    pub fn word(&mut self, value: u64)
        requires
            old(self).wf(),
        ensures
            final(self).wf(),
            final(self).words@ == old(self).words@.push(value),
    {
        proof {
            lemma_fnv_push(FNV_OFFSET, self.words@, value);
        }
        self.hash = update_hash(self.hash, value);
        self.words = Ghost(self.words@.push(value));
    }

    pub fn flag(&mut self, value: bool)
        requires
            old(self).wf(),
        ensures
            final(self).wf(),
            final(self).words@ == old(self).words@.push(flag_word(value)),
    {
        self.word(if value { 1 } else { 0 });
    }
}

/// The word that stands for a flag.
pub open spec fn flag_word(value: bool) -> u64 {
    if value {
        1
    } else {
        0
    }
}

/// The encodings of `items`, one after the other.
pub open spec fn concat_words<T>(items: Seq<T>, encode: spec_fn(T) -> Seq<u64>) -> Seq<u64>
    decreases items.len(),
{
    if items.len() == 0 {
        Seq::empty()
    } else {
        concat_words(items.drop_last(), encode) + encode(items.last())
    }
}

/// A list is its length, then the encodings of its items.
pub open spec fn list_words<T>(items: Seq<T>, encode: spec_fn(T) -> Seq<u64>) -> Seq<u64> {
    seq![items.len() as u64] + concat_words(items, encode)
}

/// `encode` can be read back from the front of any word sequence, up to
/// `same`.
pub open spec fn readable<T>(encode: spec_fn(T) -> Seq<u64>, same: spec_fn(T, T) -> bool) -> bool {
    forall|a: T, b: T, s: Seq<u64>, t: Seq<u64>|
        #![trigger encode(a) + s, encode(b) + t]
        encode(a) + s == encode(b) + t ==> same(a, b) && s == t
}

pub open spec fn same_items<T>(a: Seq<T>, b: Seq<T>, same: spec_fn(T, T) -> bool) -> bool {
    a.len() == b.len() && forall|i: int| 0 <= i < a.len() ==> same(#[trigger] a[i], b[i])
}

pub proof fn lemma_concat_step<T>(items: Seq<T>, encode: spec_fn(T) -> Seq<u64>, index: int)
    requires
        0 <= index < items.len(),
    ensures
        concat_words(items.take(index + 1), encode) == concat_words(items.take(index), encode)
            + encode(items[index]),
{
    assert(items.take(index + 1).drop_last() =~= items.take(index));
}

pub proof fn lemma_concat_front<T>(items: Seq<T>, encode: spec_fn(T) -> Seq<u64>)
    requires
        items.len() > 0,
    ensures
        concat_words(items, encode) == encode(items[0]) + concat_words(items.skip(1), encode),
    decreases items.len(),
{
    if items.len() == 1 {
        assert(items.drop_last() =~= Seq::empty());
        assert(items.skip(1) =~= Seq::empty());
        assert(concat_words(items, encode) =~= encode(items[0]) + concat_words(
            items.skip(1),
            encode,
        ));
    } else {
        lemma_concat_front(items.drop_last(), encode);
        assert(items.drop_last().skip(1) =~= items.skip(1).drop_last());
        assert(concat_words(items, encode) =~= encode(items[0]) + concat_words(
            items.skip(1),
            encode,
        ));
    }
}

/// The length of a vector fits a word.
pub proof fn lemma_vec_len<T>(items: Vec<T>)
    ensures
        items@.len() <= u64::MAX,
{
    assert(items.len() == items@.len());
}

/// What follows two equal words can be compared word by word.
pub proof fn lemma_same_front(a: Seq<u64>, b: Seq<u64>, s: Seq<u64>, t: Seq<u64>)
    requires
        a + s == b + t,
        a.len() == b.len(),
    ensures
        a == b,
        s == t,
{
    assert(a =~= (a + s).take(a.len() as int));
    assert(b =~= (b + t).take(a.len() as int));
    assert(s =~= (a + s).skip(a.len() as int));
    assert(t =~= (b + t).skip(a.len() as int));
}

proof fn lemma_concat_readable<T>(
    a: Seq<T>,
    b: Seq<T>,
    s: Seq<u64>,
    t: Seq<u64>,
    encode: spec_fn(T) -> Seq<u64>,
    same: spec_fn(T, T) -> bool,
)
    requires
        readable(encode, same),
        a.len() == b.len(),
        concat_words(a, encode) + s == concat_words(b, encode) + t,
    ensures
        same_items(a, b, same),
        s == t,
    decreases a.len(),
{
    if a.len() == 0 {
        lemma_same_front(concat_words(a, encode), concat_words(b, encode), s, t);
    } else {
        lemma_concat_front(a, encode);
        lemma_concat_front(b, encode);
        let ra = concat_words(a.skip(1), encode) + s;
        let rb = concat_words(b.skip(1), encode) + t;
        assert(concat_words(a, encode) + s =~= encode(a[0]) + ra);
        assert(concat_words(b, encode) + t =~= encode(b[0]) + rb);
        lemma_concat_readable(a.skip(1), b.skip(1), s, t, encode, same);
        assert forall|i: int| 0 <= i < a.len() implies same(#[trigger] a[i], b[i]) by {
            if i > 0 {
                assert(same(a.skip(1)[i - 1], b.skip(1)[i - 1]));
            }
        }
    }
}

/// A list whose items can be read back can be read back itself.
pub proof fn lemma_list_readable<T>(
    a: Seq<T>,
    b: Seq<T>,
    s: Seq<u64>,
    t: Seq<u64>,
    encode: spec_fn(T) -> Seq<u64>,
    same: spec_fn(T, T) -> bool,
)
    requires
        readable(encode, same),
        a.len() <= u64::MAX,
        b.len() <= u64::MAX,
        list_words(a, encode) + s == list_words(b, encode) + t,
    ensures
        same_items(a, b, same),
        s == t,
{
    let ra = concat_words(a, encode) + s;
    let rb = concat_words(b, encode) + t;
    assert(list_words(a, encode) + s =~= seq![a.len() as u64] + ra);
    assert(list_words(b, encode) + t =~= seq![b.len() as u64] + rb);
    lemma_same_front(seq![a.len() as u64], seq![b.len() as u64], ra, rb);
    assert(seq![a.len() as u64][0] == seq![b.len() as u64][0]);
    lemma_concat_readable(a, b, s, t, encode, same);
}

pub proof fn lemma_fnv_push(hash: u64, words: Seq<u64>, word: u64)
    ensures
        fnv_words(hash, words.push(word)) == fnv_word(fnv_words(hash, words), word),
{
    assert(words.push(word).drop_last() =~= words);
}

pub proof fn lemma_fnv_concat(hash: u64, left: Seq<u64>, right: Seq<u64>)
    ensures
        fnv_words(hash, left + right) == fnv_words(fnv_words(hash, left), right),
    decreases right.len(),
{
    if right.len() == 0 {
        assert(left + right =~= left);
    } else {
        lemma_fnv_concat(hash, left, right.drop_last());
        assert((left + right).drop_last() =~= left + right.drop_last());
    }
}

/// Multiplication by the prime can be undone, so it loses nothing.
proof fn lemma_multiply_injective(left: u64, right: u64)
    requires
        left.wrapping_mul(FNV_PRIME) == right.wrapping_mul(FNV_PRIME),
    ensures
        left == right,
{
    lemma_multiply_inverse(left);
    lemma_multiply_inverse(right);
}

proof fn lemma_multiply_inverse(value: u64)
    ensures
        (value.wrapping_mul(FNV_PRIME) as int * FNV_PRIME_INVERSE as int) % 0x1_0000_0000_0000_0000
            == value,
{
    let m: int = 0x1_0000_0000_0000_0000;
    let p = FNV_PRIME as int;
    let i = FNV_PRIME_INVERSE as int;
    assert(p * i == 0xb153_003e_aff6_957bint * 0x0000_0001_0000_01b3int) by (nonlinear_arith)
        requires
            p == 0x0000_0001_0000_01b3int,
            i == 0xb153_003e_aff6_957bint,
    ;
    assert((p * i) % m == 1);
    let x = value as int * p;
    assert(value.wrapping_mul(FNV_PRIME) as int == x % m);
    vstd::arithmetic::div_mod::lemma_mul_mod_noop_general(x, i, m);
    assert(x * i == value as int * (p * i)) by (nonlinear_arith)
        requires
            x == value as int * p,
    ;
    vstd::arithmetic::div_mod::lemma_mul_mod_noop_general(value as int, p * i, m);
    vstd::arithmetic::div_mod::lemma_small_mod(value as nat, m as nat);
}

/// A byte step maps different hashes to different hashes.
pub proof fn lemma_fnv_byte_injective(left: u64, right: u64, byte: u64)
    requires
        fnv_byte(left, byte) == fnv_byte(right, byte),
    ensures
        left == right,
{
    lemma_multiply_injective(left ^ byte, right ^ byte);
    assert(left ^ byte == right ^ byte ==> left == right) by (bit_vector);
}

/// A word step maps different hashes to different hashes.
pub proof fn lemma_fnv_word_injective(left: u64, right: u64, value: u64, count: nat)
    requires
        fnv_bytes(left, value, count) == fnv_bytes(right, value, count),
    ensures
        left == right,
    decreases count,
{
    if count > 0 {
        lemma_fnv_byte_injective(
            fnv_bytes(left, value, (count - 1) as nat),
            fnv_bytes(right, value, (count - 1) as nat),
            le_byte(value, count - 1),
        );
        lemma_fnv_word_injective(left, right, value, (count - 1) as nat);
    }
}

/// A common suffix keeps different hashes different.
pub proof fn lemma_fnv_suffix_injective(left: u64, right: u64, words: Seq<u64>)
    requires
        fnv_words(left, words) == fnv_words(right, words),
    ensures
        left == right,
    decreases words.len(),
{
    if words.len() > 0 {
        lemma_fnv_word_injective(
            fnv_words(left, words.drop_last()),
            fnv_words(right, words.drop_last()),
            words.last(),
            8,
        );
        lemma_fnv_suffix_injective(left, right, words.drop_last());
    }
}

/// From one hash, two different words below 256 lead to different hashes.
pub proof fn lemma_fnv_small_word_differs(hash: u64, left: u64, right: u64)
    requires
        left < 256,
        right < 256,
        fnv_word(hash, left) == fnv_word(hash, right),
    ensures
        left == right,
{
    lemma_small_word_bytes(hash, left, right, 8);
}

proof fn lemma_small_word_bytes(hash: u64, left: u64, right: u64, count: nat)
    requires
        left < 256,
        right < 256,
        1 <= count <= 8,
        fnv_bytes(hash, left, count) == fnv_bytes(hash, right, count),
    ensures
        left == right,
    decreases count,
{
    if count == 1 {
        assert(le_byte(left, 0) == left && le_byte(right, 0) == right) by {
            assert((left >> 0u64) & 0xff == left) by (bit_vector)
                requires
                    left < 256,
            ;
            assert((right >> 0u64) & 0xff == right) by (bit_vector)
                requires
                    right < 256,
            ;
        }
        assert(fnv_bytes(hash, left, 1) == fnv_byte(fnv_bytes(hash, left, 0), left));
        assert(fnv_bytes(hash, right, 1) == fnv_byte(fnv_bytes(hash, right, 0), right));
        lemma_multiply_injective(hash ^ left, hash ^ right);
        assert(hash ^ left == hash ^ right ==> left == right) by (bit_vector);
    } else {
        let shift = (8 * (count - 1)) as u64;
        assert(le_byte(left, count - 1) == le_byte(right, count - 1)) by {
            assert((left >> shift) & 0xff == 0 && (right >> shift) & 0xff == 0) by (bit_vector)
                requires
                    left < 256,
                    right < 256,
                    8 <= shift < 64,
            ;
        }
        lemma_fnv_byte_injective(
            fnv_bytes(hash, left, (count - 1) as nat),
            fnv_bytes(hash, right, (count - 1) as nat),
            le_byte(left, count - 1),
        );
        lemma_small_word_bytes(hash, left, right, (count - 1) as nat);
    }
}

/// Changing a single small word of a fingerprinted sequence changes the
/// fingerprint: a flag that flips, or an enumeration code that moves, is never
/// lost.
pub proof fn lemma_small_word_change_is_seen(
    hash: u64,
    prefix: Seq<u64>,
    left: u64,
    right: u64,
    suffix: Seq<u64>,
)
    requires
        left < 256,
        right < 256,
        left != right,
    ensures
        fnv_words(hash, prefix.push(left) + suffix) != fnv_words(
            hash,
            prefix.push(right) + suffix,
        ),
{
    lemma_fnv_concat(hash, prefix.push(left), suffix);
    lemma_fnv_concat(hash, prefix.push(right), suffix);
    lemma_fnv_push(hash, prefix, left);
    lemma_fnv_push(hash, prefix, right);
    let a = fnv_word(fnv_words(hash, prefix), left);
    let b = fnv_word(fnv_words(hash, prefix), right);
    if fnv_words(a, suffix) == fnv_words(b, suffix) {
        lemma_fnv_suffix_injective(a, b, suffix);
        lemma_fnv_small_word_differs(fnv_words(hash, prefix), left, right);
    }
}

} // verus!
