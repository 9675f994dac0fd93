//! Fingerprints of private deals.
//!
//! A game that was compiled for a list of deals no longer tells which hands they
//! were, so its own fingerprint does not either. The fingerprint of the deals
//! stands beside a checkpoint of such a game: a run over other hands or other
//! probabilities does not go on from it.
use vstd::prelude::*;

use crate::cards::Combo;
use crate::checkpoint::SolverError;
use crate::hash::{
    concat_words, fnv_words, lemma_concat_step, lemma_list_readable, lemma_same_front,
    lemma_vec_len, list_words, readable, Fingerprint, FNV_OFFSET,
};
use crate::holdem::{MultiwayPrivateDeal, PrivateDeal};

verus! {

/// The words of a hand.
pub open spec fn combo_encoding() -> spec_fn(Combo) -> Seq<u64> {
    |combo: Combo| seq![combo.first as u64, combo.second as u64]
}

/// The words of a deal to two players.
pub open spec fn pair_encoding() -> spec_fn(PrivateDeal) -> Seq<u64> {
    |deal: PrivateDeal|
        seq![
            deal.probability,
            deal.hands@[0].first as u64,
            deal.hands@[0].second as u64,
            deal.hands@[1].first as u64,
            deal.hands@[1].second as u64,
        ]
}

/// The words of a deal to any number of players.
pub open spec fn deal_encoding() -> spec_fn(MultiwayPrivateDeal) -> Seq<u64> {
    |deal: MultiwayPrivateDeal|
        seq![deal.probability] + list_words(deal.hands@, combo_encoding())
}

/// The words that identify deals to two players.
pub open spec fn pair_words(deals: Seq<PrivateDeal>) -> Seq<u64> {
    list_words(deals, pair_encoding())
}

/// The words that identify deals.
pub open spec fn deal_words(deals: Seq<MultiwayPrivateDeal>) -> Seq<u64> {
    list_words(deals, deal_encoding())
}

/// The fingerprint of deals to two players.
pub fn private_deals_fingerprint(deals: &[PrivateDeal]) -> (hash: u64)
    ensures
        hash == fnv_words(FNV_OFFSET, pair_words(deals@)),
{
    let mut fingerprint = Fingerprint::new();
    let ghost encode = pair_encoding();
    fingerprint.word(deals.len() as u64);
    let ghost start = seq![deals@.len() as u64];
    let mut index: usize = 0;
    assert(deals@.take(0) =~= Seq::<PrivateDeal>::empty());
    assert(fingerprint.words@ =~= start + concat_words(deals@.take(0), encode));
    while index < deals.len()
        invariant
            index <= deals@.len(),
            fingerprint.wf(),
            encode == pair_encoding(),
            fingerprint.words@ == start + concat_words(deals@.take(index as int), encode),
        decreases deals.len() - index,
    {
        proof {
            lemma_concat_step(deals@, encode, index as int);
        }
        let deal = &deals[index];
        fingerprint.word(deal.probability);
        fingerprint.word(deal.hands[0].first as u64);
        fingerprint.word(deal.hands[0].second as u64);
        fingerprint.word(deal.hands[1].first as u64);
        fingerprint.word(deal.hands[1].second as u64);
        index = index + 1;
        assert(fingerprint.words@ =~= start + concat_words(deals@.take(index as int), encode));
    }
    assert(deals@.take(index as int) =~= deals@);
    assert(fingerprint.words@ =~= pair_words(deals@));
    fingerprint.hash
}

fn hash_hands(fingerprint: &mut Fingerprint, hands: &Vec<Combo>)
    requires
        old(fingerprint).wf(),
    ensures
        final(fingerprint).wf(),
        final(fingerprint).words@ == old(fingerprint).words@ + list_words(
            hands@,
            combo_encoding(),
        ),
{
    let ghost start = fingerprint.words@;
    let ghost encode = combo_encoding();
    fingerprint.word(hands.len() as u64);
    let ghost front = start.push(hands@.len() as u64);
    let mut index: usize = 0;
    assert(hands@.take(0) =~= Seq::<Combo>::empty());
    assert(fingerprint.words@ =~= front + concat_words(hands@.take(0), encode));
    while index < hands.len()
        invariant
            index <= hands@.len(),
            fingerprint.wf(),
            encode == combo_encoding(),
            fingerprint.words@ == front + concat_words(hands@.take(index as int), encode),
        decreases hands.len() - index,
    {
        proof {
            lemma_concat_step(hands@, encode, index as int);
        }
        let hand = hands[index];
        fingerprint.word(hand.first as u64);
        fingerprint.word(hand.second as u64);
        index = index + 1;
        assert(fingerprint.words@ =~= front + concat_words(hands@.take(index as int), encode));
    }
    assert(hands@.take(index as int) =~= hands@);
    assert(fingerprint.words@ =~= start + list_words(hands@, encode));
}

/// The fingerprint of deals.
pub fn multiway_deals_fingerprint(deals: &[MultiwayPrivateDeal]) -> (hash: u64)
    ensures
        hash == fnv_words(FNV_OFFSET, deal_words(deals@)),
{
    let mut fingerprint = Fingerprint::new();
    let ghost encode = deal_encoding();
    fingerprint.word(deals.len() as u64);
    let ghost start = seq![deals@.len() as u64];
    let mut index: usize = 0;
    assert(deals@.take(0) =~= Seq::<MultiwayPrivateDeal>::empty());
    assert(fingerprint.words@ =~= start + concat_words(deals@.take(0), encode));
    while index < deals.len()
        invariant
            index <= deals@.len(),
            fingerprint.wf(),
            encode == deal_encoding(),
            fingerprint.words@ == start + concat_words(deals@.take(index as int), encode),
        decreases deals.len() - index,
    {
        proof {
            lemma_concat_step(deals@, encode, index as int);
        }
        fingerprint.word(deals[index].probability);
        hash_hands(&mut fingerprint, &deals[index].hands);
        index = index + 1;
        assert(fingerprint.words@ =~= start + concat_words(deals@.take(index as int), encode));
    }
    assert(deals@.take(index as int) =~= deals@);
    assert(fingerprint.words@ =~= deal_words(deals@));
    fingerprint.hash
}

/// The words behind the fingerprint of deals to two players identify the
/// hands and their probabilities.
pub proof fn lemma_pair_words_identify_the_deals(
    left: Vec<PrivateDeal>,
    right: Vec<PrivateDeal>,
)
    requires
        pair_words(left@) == pair_words(right@),
    ensures
        left@ == right@,
{
    let encode = pair_encoding();
    let same = |a: PrivateDeal, b: PrivateDeal| a == b;
    assert(readable(encode, same)) by {
        assert forall|a: PrivateDeal, b: PrivateDeal, s: Seq<u64>, t: Seq<u64>|
            #![trigger encode(a) + s, encode(b) + t]
            encode(a) + s == encode(b) + t implies same(a, b) && s == t by {
            lemma_same_front(encode(a), encode(b), s, t);
            assert(encode(a)[0] == encode(b)[0]);
            assert(encode(a)[1] == encode(b)[1]);
            assert(encode(a)[2] == encode(b)[2]);
            assert(encode(a)[3] == encode(b)[3]);
            assert(encode(a)[4] == encode(b)[4]);
            assert(a.hands@ =~= b.hands@);
            assert(a.hands =~= b.hands);
        }
    }
    lemma_vec_len(left);
    lemma_vec_len(right);
    let l = list_words(left@, encode);
    let r = list_words(right@, encode);
    assert(l + Seq::<u64>::empty() =~= r + Seq::<u64>::empty());
    lemma_list_readable(left@, right@, Seq::empty(), Seq::empty(), encode, same);
    assert forall|i: int| 0 <= i < left@.len() implies left@[i] == right@[i] by {
        assert(same(left@[i], right@[i]));
    }
    assert(left@ =~= right@);
}

/// The words behind the fingerprint of deals identify the hands and
/// their probabilities.
pub proof fn lemma_deal_words_identify_the_deals(
    left: Vec<MultiwayPrivateDeal>,
    right: Vec<MultiwayPrivateDeal>,
)
    requires
        deal_words(left@) == deal_words(right@),
    ensures
        left@.len() == right@.len(),
        forall|i: int|
            0 <= i < left@.len() ==> (#[trigger] left@[i]).probability == right@[i].probability
                && left@[i].hands@ == right@[i].hands@,
{
    let encode = deal_encoding();
    let one = |a: Combo, b: Combo| a == b;
    let same = |a: MultiwayPrivateDeal, b: MultiwayPrivateDeal|
        a.probability == b.probability && a.hands@ == b.hands@;
    let hand = combo_encoding();
    assert(readable(hand, one)) by {
        assert forall|a: Combo, b: Combo, s: Seq<u64>, t: Seq<u64>|
            #![trigger hand(a) + s, hand(b) + t]
            hand(a) + s == hand(b) + t implies one(a, b) && s == t by {
            lemma_same_front(hand(a), hand(b), s, t);
            assert(hand(a)[0] == hand(b)[0]);
            assert(hand(a)[1] == hand(b)[1]);
        }
    }
    assert(readable(encode, same)) by {
        assert forall|a: MultiwayPrivateDeal, b: MultiwayPrivateDeal, s: Seq<u64>, t: Seq<u64>|
            #![trigger encode(a) + s, encode(b) + t]
            encode(a) + s == encode(b) + t implies same(a, b) && s == t by {
            let ra = list_words(a.hands@, hand) + s;
            let rb = list_words(b.hands@, hand) + t;
            assert(encode(a) + s =~= seq![a.probability] + ra);
            assert(encode(b) + t =~= seq![b.probability] + rb);
            lemma_same_front(seq![a.probability], seq![b.probability], ra, rb);
            assert(seq![a.probability][0] == seq![b.probability][0]);
            lemma_vec_len(a.hands);
            lemma_vec_len(b.hands);
            lemma_list_readable(a.hands@, b.hands@, s, t, hand, one);
            assert forall|i: int| 0 <= i < a.hands@.len() implies a.hands@[i] == b.hands@[i] by {
                assert(one(a.hands@[i], b.hands@[i]));
            }
            assert(a.hands@ =~= b.hands@);
        }
    }
    lemma_vec_len(left);
    lemma_vec_len(right);
    let l = list_words(left@, encode);
    let r = list_words(right@, encode);
    assert(l + Seq::<u64>::empty() =~= r + Seq::<u64>::empty());
    lemma_list_readable(left@, right@, Seq::empty(), Seq::empty(), encode, same);
    assert forall|i: int| 0 <= i < left@.len() implies (#[trigger] left@[i]).probability
        == right@[i].probability && left@[i].hands@ == right@[i].hands@ by {
        assert(same(left@[i], right@[i]));
    }
}

/// Refuses to go on from a checkpoint that was written over other deals to two
/// players.
pub fn check_private_deals(written: u64, deals: &[PrivateDeal]) -> (result: Result<(), SolverError>)
    ensures
        result == if written == fnv_words(FNV_OFFSET, pair_words(deals@)) {
            Ok::<(), SolverError>(())
        } else {
            Err(SolverError::DealsMismatch)
        },
{
    if written != private_deals_fingerprint(deals) {
        return Err(SolverError::DealsMismatch);
    }
    Ok(())
}

/// Refuses to go on from a checkpoint that was written over other deals.
pub fn check_multiway_deals(written: u64, deals: &[MultiwayPrivateDeal]) -> (result: Result<
    (),
    SolverError,
>)
    ensures
        result == if written == fnv_words(FNV_OFFSET, deal_words(deals@)) {
            Ok::<(), SolverError>(())
        } else {
            Err(SolverError::DealsMismatch)
        },
{
    if written != multiway_deals_fingerprint(deals) {
        return Err(SolverError::DealsMismatch);
    }
    Ok(())
}

} // verus!
