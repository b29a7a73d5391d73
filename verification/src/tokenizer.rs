//! The line tokenizer: splits one line of input into whitespace-separated
//! tokens and collects the values of the tokens that parsed as numbers.
//!
//! Numeric conversion itself happens outside this crate; the tokenizer's
//! callers hand back one parse outcome per token, and [`collect_parsed`]
//! keeps exactly the successful ones, in order.  A token that fails to parse
//! is dropped silently and never advances a column index.

use vstd::prelude::*;
use crate::is_space;
use crate::is_space_byte;

verus! {

/// One step of the splitter: folds the next byte into the pair of
/// (finished tokens, token under construction).
pub open spec fn token_step(acc: (Seq<Seq<u8>>, Seq<u8>), b: u8) -> (Seq<Seq<u8>>, Seq<u8>) {
    if is_space(b) {
        if acc.1.len() > 0 {
            (acc.0.push(acc.1), Seq::empty())
        } else {
            acc
        }
    } else {
        (acc.0, acc.1.push(b))
    }
}

/// Folds [`token_step`] over a whole line, left to right.
pub open spec fn token_fold(line: Seq<u8>) -> (Seq<Seq<u8>>, Seq<u8>)
    decreases line.len(),
{
    if line.len() == 0 {
        (Seq::empty(), Seq::empty())
    } else {
        token_step(token_fold(line.drop_last()), line.last())
    }
}

/// The maximal runs of non-whitespace bytes in `line`, in left-to-right order.
pub open spec fn tokens_of(line: Seq<u8>) -> Seq<Seq<u8>> {
    let f = token_fold(line);
    if f.1.len() > 0 {
        f.0.push(f.1)
    } else {
        f.0
    }
}

/// True when no byte of `token` is whitespace.
pub open spec fn no_space(token: Seq<u8>) -> bool {
    forall|b: int| 0 <= b < token.len() ==> !is_space(#[trigger] token[b])
}

/// Both parts of the fold are clean: every finished token is a nonempty run
/// of non-whitespace bytes, and the token under construction holds none
/// either.
proof fn lemma_fold_wellformed(line: Seq<u8>)
    ensures
        forall|t: int|
            0 <= t < token_fold(line).0.len() ==> (#[trigger] token_fold(line).0[t]).len() > 0
                && no_space(token_fold(line).0[t]),
        no_space(token_fold(line).1),
    decreases line.len(),
{
    if line.len() > 0 {
        lemma_fold_wellformed(line.drop_last());
    }
}

/// Every token of a line is a nonempty run of non-whitespace bytes.
pub proof fn lemma_tokens_wellformed(line: Seq<u8>)
    ensures
        forall|t: int|
            0 <= t < tokens_of(line).len() ==> (#[trigger] tokens_of(line)[t]).len() > 0
                && no_space(tokens_of(line)[t]),
{
    lemma_fold_wellformed(line);
}

/// Splits a line into its whitespace-separated tokens.
pub fn split_tokens(line: &[u8]) -> (tokens: Vec<Vec<u8>>)
    ensures
        tokens.deep_view() == tokens_of(line@),
{
    let mut tokens: Vec<Vec<u8>> = Vec::new();
    let mut cur: Vec<u8> = Vec::new();
    let mut i: usize = 0;
    while i < line.len()
        invariant
            i <= line@.len(),
            tokens.deep_view() == token_fold(line@.subrange(0, i as int)).0,
            cur@ == token_fold(line@.subrange(0, i as int)).1,
        decreases line@.len() - i,
    {
        let ghost prefix = line@.subrange(0, i as int);
        let b = line[i];
        if is_space_byte(b) {
            if cur.len() > 0 {
                let finished = cur;
                cur = Vec::new();
                tokens.push(finished);
            }
        } else {
            cur.push(b);
        }
        i = i + 1;
        proof {
            let longer = line@.subrange(0, i as int);
            assert(longer.drop_last() =~= prefix);
            assert(longer.last() == b);
            assert(tokens.deep_view() =~~= token_fold(longer).0);
        }
    }
    proof {
        assert(line@.subrange(0, line@.len() as int) =~= line@);
    }
    if cur.len() > 0 {
        tokens.push(cur);
        proof {
            assert(tokens.deep_view() =~~= tokens_of(line@));
        }
    }
    tokens
}

/// The successful outcomes in `outcomes`, in order; a `None` is dropped
/// without leaving a gap.
pub open spec fn parsed_values(outcomes: Seq<Option<u64>>) -> Seq<u64>
    decreases outcomes.len(),
{
    if outcomes.len() == 0 {
        Seq::empty()
    } else {
        let rest = parsed_values(outcomes.drop_last());
        match outcomes.last() {
            Some(v) => rest.push(v),
            None => rest,
        }
    }
}

/// Collects the values of the tokens that parsed, dropping the failures
/// silently: a dropped token never advances a column index.
pub fn collect_parsed(outcomes: &Vec<Option<u64>>) -> (values: Vec<u64>)
    ensures
        values@ == parsed_values(outcomes@),
{
    let mut values: Vec<u64> = Vec::new();
    let mut i: usize = 0;
    while i < outcomes.len()
        invariant
            i <= outcomes@.len(),
            values@ == parsed_values(outcomes@.subrange(0, i as int)),
        decreases outcomes@.len() - i,
    {
        let ghost prefix = outcomes@.subrange(0, i as int);
        match outcomes[i] {
            Some(v) => values.push(v),
            None => (),
        }
        i = i + 1;
        proof {
            let longer = outcomes@.subrange(0, i as int);
            assert(longer.drop_last() =~= prefix);
        }
    }
    proof {
        assert(outcomes@.subrange(0, outcomes@.len() as int) =~= outcomes@);
    }
    values
}

} // verus!
