//! Word selection: a fixed number of words drawn from each part of speech
//! of the word bank, then shuffled, with the random draws made by `rand`.
use crate::fixture::FIXTURE_SEED;
use rand::rngs::SmallRng;
use rand::seq::{IndexedRandom, SliceRandom};
use vstd::prelude::*;

verus! {

/// rand's `SmallRng`, carried through as an opaque generator.
#[verifier::external_type_specification]
#[verifier::external_body]
pub struct ExSmallRng(SmallRng);

/// The word bank, one list per part of speech.
pub struct WordBank {
    pub nouns: Vec<String>,
    pub verbs: Vec<String>,
    pub adjectives: Vec<String>,
    pub adverbs: Vec<String>,
    pub pronouns: Vec<String>,
    pub prepositions: Vec<String>,
    pub conjunctions: Vec<String>,
    pub articles: Vec<String>,
}

/// How many words each part of speech contributes, in draw order.
pub open spec fn selection_plan(bank: WordBank) -> Seq<(Seq<String>, nat)> {
    seq![
        (bank.nouns@, 6nat),
        (bank.verbs@, 6nat),
        (bank.adjectives@, 4nat),
        (bank.adverbs@, 2nat),
        (bank.pronouns@, 6nat),
        (bank.prepositions@, 10nat),
        (bank.conjunctions@, 3nat),
        (bank.articles@, 3nat),
    ]
}

/// How many words a draw of `amount` from `words` yields.
pub open spec fn drawn(words: Seq<String>, amount: nat) -> nat {
    if amount < words.len() {
        amount
    } else {
        words.len()
    }
}

/// `picked[k]` is `words[idx[k]]`, with distinct indices in range.
pub open spec fn draws_from(idx: Seq<int>, picked: Seq<String>, words: Seq<String>) -> bool {
    &&& idx.len() == picked.len()
    &&& forall|k: int| 0 <= k < idx.len() ==> 0 <= #[trigger] idx[k] < words.len()
    &&& forall|k: int| 0 <= k < idx.len() ==> picked[k] == words[#[trigger] idx[k]]
    &&& forall|k: int, l: int| 0 <= k < l < idx.len() ==> idx[k] != idx[l]
}

/// `picked` holds `min(amount, words.len())` words of `words`, without
/// repetition, in any order.
pub open spec fn is_draw(picked: Seq<String>, words: Seq<String>, amount: nat) -> bool {
    &&& picked.len() == drawn(words, amount)
    &&& exists|idx: Seq<int>| draws_from(idx, picked, words)
}

/// How many words the selection holds.
pub open spec fn selection_size(bank: WordBank) -> nat {
    drawn(bank.nouns@, 6) + drawn(bank.verbs@, 6) + drawn(bank.adjectives@, 4) + drawn(
        bank.adverbs@,
        2,
    ) + drawn(bank.pronouns@, 6) + drawn(bank.prepositions@, 10) + drawn(bank.conjunctions@, 3)
        + drawn(bank.articles@, 3)
}

/// `selected` is a rearrangement of one draw per part of speech.
pub open spec fn is_selection(selected: Seq<String>, bank: WordBank) -> bool {
    exists|picks: Seq<Seq<String>>|
        {
            &&& picks.len() == 8
            &&& forall|c: int|
                0 <= c < 8 ==> is_draw(
                    #[trigger] picks[c],
                    selection_plan(bank)[c].0,
                    selection_plan(bank)[c].1,
                )
            &&& selected.to_multiset() == picks.flatten().to_multiset()
        }
}

/// Digits of a decimal numeral, as a number.
pub open spec fn decimal_value(s: Seq<char>) -> int
    decreases s.len(),
{
    if s.len() == 0 {
        0
    } else {
        decimal_value(s.drop_last()) * 10 + (s.last() as int - '0' as int)
    }
}

pub open spec fn all_digits(s: Seq<char>) -> bool {
    forall|i: int| 0 <= i < s.len() ==> '0' <= #[trigger] s[i] <= '9'
}

/// What `str::parse::<u64>` accepts: an optional `+` and then one or more
/// ASCII digits whose value fits in a `u64`.
pub open spec fn spec_parse_u64(s: Seq<char>) -> Option<u64> {
    let digits = if s.len() > 0 && s[0] == '+' {
        s.drop_first()
    } else {
        s
    };
    if digits.len() > 0 && all_digits(digits) && decimal_value(digits) <= u64::MAX {
        Some(decimal_value(digits) as u64)
    } else {
        None
    }
}

/// The seed of the word selection: an explicit seed that parses, else the
/// fixture seed when a fixture scene is requested, else none (a random
/// selection).
pub open spec fn spec_selection_seed(seed_var: Option<Seq<char>>, scene_requested: bool) -> Option<
    u64,
> {
    match seed_var {
        Some(s) if spec_parse_u64(s) is Some => spec_parse_u64(s),
        _ => if scene_requested {
            Some(FIXTURE_SEED)
        } else {
            None
        },
    }
}

/// rand's `IndexedRandom::sample`, collected into owned words: `amount`
/// distinct positions of `words` (all of them when `amount` exceeds the
/// length), in random order. Which positions come out depends on the
/// generator's state; the contract states what holds of every outcome.
#[verifier::external_body]
fn sample_words(words: &Vec<String>, rng: &mut SmallRng, amount: usize) -> (picked: Vec<String>)
    ensures
        is_draw(picked@, words@, amount as nat),
{
    words.as_slice().sample(rng, amount).cloned().collect()
}

/// rand's `SliceRandom::shuffle`: a permutation of the words, chosen by the
/// generator. Which permutation depends on the generator's state; the
/// contract states what holds of every outcome.
#[verifier::external_body]
fn shuffle_words(words: &mut Vec<String>, rng: &mut SmallRng)
    ensures
        final(words)@.to_multiset() == old(words)@.to_multiset(),
{
    words.as_mut_slice().shuffle(rng)
}

/// A numeral of digits has a non-negative value, at least that of any of
/// its prefixes.
proof fn lemma_decimal_prefix(t: Seq<char>, m: int)
    requires
        all_digits(t),
        0 <= m <= t.len(),
    ensures
        0 <= decimal_value(t.subrange(0, m)) <= decimal_value(t),
    decreases t.len(),
{
    if t.len() > 0 {
        let init = t.drop_last();
        if m < t.len() {
            lemma_decimal_prefix(init, m);
            assert(init.subrange(0, m) =~= t.subrange(0, m));
        } else {
            lemma_decimal_prefix(init, init.len() as int);
            assert(init.subrange(0, init.len() as int) =~= init);
        }
        assert(t.subrange(0, t.len() as int) =~= t);
    }
}

/// Reads a decimal numeral as `str::parse::<u64>` does: an optional `+`,
/// then one or more ASCII digits whose value fits in a `u64`; anything else
/// gives `None`.
fn parse_u64(s: &str) -> (value: Option<u64>)
    ensures
        value == spec_parse_u64(s@),
{
    let len = s.unicode_len();
    let mut start: usize = 0;
    if len > 0 && s.get_char(0) == '+' {
        start = 1;
    }
    let ghost digits = s@.subrange(start as int, len as int);
    proof {
        if start == 1 {
            assert(digits =~= s@.drop_first());
        } else {
            assert(digits =~= s@);
        }
    }
    if start >= len {
        return None;
    }
    let mut value: u64 = 0;
    let mut i: usize = start;
    while i < len
        invariant
            start <= i <= len,
            start < len,
            len == s@.len(),
            digits == s@.subrange(start as int, len as int),
            digits == (if s@.len() > 0 && s@[0] == '+' {
                s@.drop_first()
            } else {
                s@
            }),
            all_digits(s@.subrange(start as int, i as int)),
            value == decimal_value(s@.subrange(start as int, i as int)),
        decreases len - i,
    {
        let c = s.get_char(i);
        let ghost seen = s@.subrange(start as int, i + 1);
        assert(digits[i - start] == c);
        if c < '0' || c > '9' {
            return None;
        }
        let d: u64 = (c as u32 - '0' as u32) as u64;
        assert(seen.drop_last() =~= s@.subrange(start as int, i as int));
        assert(decimal_value(seen) == value * 10 + d);
        assert(all_digits(seen));
        if value > (u64::MAX - d) / 10 {
            proof {
                assert(value * 10 + d > u64::MAX) by (nonlinear_arith)
                    requires
                        value > (u64::MAX - d) / 10,
                        d <= 9,
                ;
                if all_digits(digits) {
                    lemma_decimal_prefix(digits, i + 1 - start);
                    assert(digits.subrange(0, i + 1 - start) =~= seen);
                }
            }
            return None;
        }
        assert(value * 10 + d <= u64::MAX) by (nonlinear_arith)
            requires
                value <= (u64::MAX - d) / 10,
                d <= 9,
        ;
        value = value * 10 + d;
        i = i + 1;
    }
    assert(s@.subrange(start as int, len as int) =~= digits);
    Some(value)
}

/// Draws one part of speech's words onto the end of the selection.
fn draw_into(
    selected: &mut Vec<String>,
    words: &Vec<String>,
    amount: usize,
    rng: &mut SmallRng,
    Ghost(picks): Ghost<Seq<Seq<String>>>,
) -> (next: Ghost<Seq<Seq<String>>>)
    requires
        old(selected)@ == picks.flatten(),
    ensures
        final(selected)@ == next@.flatten(),
        next@.len() == picks.len() + 1,
        next@.drop_last() == picks,
        is_draw(next@.last(), words@, amount as nat),
{
    let mut picked = sample_words(words, rng, amount);
    let ghost p = picked@;
    selected.append(&mut picked);
    proof {
        picks.lemma_flatten_push(p);
        assert(picks.push(p).drop_last() =~= picks);
    }
    Ghost(picks.push(p))
}

/// Word selection driven by a caller-supplied generator: a fixed number of
/// words per part of speech, then shuffled.
pub fn select_words_with_rng(word_bank: &WordBank, rng: &mut SmallRng) -> (selected: Vec<String>)
    ensures
        is_selection(selected@, *word_bank),
        selected@.len() == selection_size(*word_bank),
{
    let mut selected: Vec<String> = Vec::new();
    let ghost p0: Seq<Seq<String>> = Seq::empty();
    assert(selected@ =~= p0.flatten());
    let Ghost(p1) = draw_into(&mut selected, &word_bank.nouns, 6, rng, Ghost(p0));
    let Ghost(p2) = draw_into(&mut selected, &word_bank.verbs, 6, rng, Ghost(p1));
    let Ghost(p3) = draw_into(&mut selected, &word_bank.adjectives, 4, rng, Ghost(p2));
    let Ghost(p4) = draw_into(&mut selected, &word_bank.adverbs, 2, rng, Ghost(p3));
    let Ghost(p5) = draw_into(&mut selected, &word_bank.pronouns, 6, rng, Ghost(p4));
    let Ghost(p6) = draw_into(&mut selected, &word_bank.prepositions, 10, rng, Ghost(p5));
    let Ghost(p7) = draw_into(&mut selected, &word_bank.conjunctions, 3, rng, Ghost(p6));
    let Ghost(p8) = draw_into(&mut selected, &word_bank.articles, 3, rng, Ghost(p7));
    let ghost flat = selected@;
    proof {
        let plan = selection_plan(*word_bank);
        assert(p8[7] == p8.last());
        assert(p8[6] == p7.last());
        assert(p8[5] == p6.last());
        assert(p8[4] == p5.last());
        assert(p8[3] == p4.last());
        assert(p8[2] == p3.last());
        assert(p8[1] == p2.last());
        assert(p8[0] == p1.last());
        assert forall|c: int| 0 <= c < 8 implies is_draw(#[trigger] p8[c], plan[c].0, plan[c].1) by {
        }
        lemma_flatten_lengths(p8);
    }
    shuffle_words(&mut selected, rng);
    proof {
        broadcast use vstd::seq_lib::group_to_multiset_ensures;

        assert(selected@.to_multiset().len() == flat.to_multiset().len());
    }
    selected
}

proof fn lemma_flatten_lengths(picks: Seq<Seq<String>>)
    requires
        picks.len() == 8,
    ensures
        picks.flatten().len() == picks[0].len() + picks[1].len() + picks[2].len() + picks[3].len()
            + picks[4].len() + picks[5].len() + picks[6].len() + picks[7].len(),
{
    reveal_with_fuel(Seq::flatten, 9);
}

/// With at least as many words in each part of speech as the selection
/// draws from it, the selection holds exactly 40 words.
pub proof fn lemma_full_bank_selects_forty(bank: WordBank)
    requires
        bank.nouns@.len() >= 6,
        bank.verbs@.len() >= 6,
        bank.adjectives@.len() >= 4,
        bank.adverbs@.len() >= 2,
        bank.pronouns@.len() >= 6,
        bank.prepositions@.len() >= 10,
        bank.conjunctions@.len() >= 3,
        bank.articles@.len() >= 3,
    ensures
        selection_size(bank) == 40,
{
}

/// Every word of a selection comes from the bank.
pub proof fn lemma_selection_words_from_bank(selected: Seq<String>, bank: WordBank, w: String)
    requires
        is_selection(selected, bank),
        selected.contains(w),
    ensures
        exists|c: int| 0 <= c < 8 && (#[trigger] selection_plan(bank)[c]).0.contains(w),
{
    broadcast use vstd::seq_lib::group_to_multiset_ensures;

    let picks = choose|picks: Seq<Seq<String>>|
        {
            &&& picks.len() == 8
            &&& forall|c: int|
                0 <= c < 8 ==> is_draw(
                    #[trigger] picks[c],
                    selection_plan(bank)[c].0,
                    selection_plan(bank)[c].1,
                )
            &&& selected.to_multiset() == picks.flatten().to_multiset()
        };
    assert(selected.to_multiset().count(w) > 0);
    assert(picks.flatten().contains(w));
    let c = lemma_flatten_member(picks, w);
    assert(is_draw(picks[c], selection_plan(bank)[c].0, selection_plan(bank)[c].1));
    let idx = choose|idx: Seq<int>|
        draws_from(idx, picks[c], selection_plan(bank)[c].0);
    let k = choose|k: int| 0 <= k < picks[c].len() && picks[c][k] == w;
    assert(selection_plan(bank)[c].0[idx[k]] == w);
}

proof fn lemma_flatten_member(picks: Seq<Seq<String>>, w: String) -> (c: int)
    requires
        picks.flatten().contains(w),
    ensures
        0 <= c < picks.len(),
        picks[c].contains(w),
    decreases picks.len(),
{
    let first = picks.first();
    let rest = picks.drop_first();
    let k = choose|k: int| 0 <= k < picks.flatten().len() && picks.flatten()[k] == w;
    if k < first.len() {
        assert(first[k] == w);
        0
    } else {
        assert(rest.flatten()[k - first.len()] == w);
        let c = lemma_flatten_member(rest, w);
        assert(picks[c + 1] == rest[c]);
        c + 1
    }
}

/// The seed of the word selection, from the explicit seed setting (if
/// set) and whether a fixture scene is requested.
pub fn selection_seed(seed_var: Option<&str>, scene_requested: bool) -> (seed: Option<u64>)
    ensures
        seed == spec_selection_seed(
            match seed_var {
                Some(s) => Some(s@),
                None => None,
            },
            scene_requested,
        ),
{
    let parsed = match seed_var {
        Some(s) => parse_u64(s),
        None => None,
    };
    match parsed {
        Some(value) => Some(value),
        None => if scene_requested {
            Some(FIXTURE_SEED)
        } else {
            None
        },
    }
}

} // verus!
