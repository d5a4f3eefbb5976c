//! Token counting, delegated to an external tokenizer.
//!
//! The count of a text is given a name, [`token_count_of`]; nothing in this
//! crate claims what the name evaluates to, only that the external encoder
//! computes it from the text alone.

use vstd::prelude::*;
use crate::error::AppError;
use crate::state::string_views;

verus! {

/// The number of tokens the fixed encoding assigns to a text.
pub uninterp spec fn token_count_of(s: Seq<char>) -> nat;

/// Relies on `tiktoken_rs::bpe_for_model` and `CoreBPE::encode_ordinary`:
/// the token sequence the encoder assigns to a text depends on the text
/// alone, so its length deserves a name.  The call always succeeds: the
/// fixed model name is in the crate's static model table, the encoder is a
/// singleton built from rank data embedded in the crate, and the lookup
/// path returns `Ok` unconditionally.
#[verifier::external_body]
fn encode_token_count(s: &str) -> (r: Option<usize>)
    ensures
        r is Some,
        r matches Some(n) ==> n as nat == token_count_of(s@),
{
    match tiktoken_rs::bpe_for_model("gpt-3.5-turbo") {
        Ok(bpe) => Some(bpe.encode_ordinary(s).len()),
        Err(_) => None,
    }
}

/// Counts the tokens of one text.  Success is owed: the encoder is embedded
/// in the crate, so the error taxonomy's tokenizer-unavailable case cannot
/// arise here.
pub fn calculate_tokens_in_string(s: &str) -> (r: Result<usize, AppError>)
    ensures
        r is Ok,
        r matches Ok(n) ==> n as nat == token_count_of(s@),
        r matches Err(e) ==> e == AppError::TokenizerUnavailable,
{
    match encode_token_count(s) {
        Some(n) => Ok(n),
        None => Err(AppError::TokenizerUnavailable),
    }
}

/// The summed token count of a sequence of texts.
pub open spec fn total_tokens(ts: Seq<Seq<char>>) -> int
    decreases ts.len(),
{
    if ts.len() == 0 {
        0
    } else {
        total_tokens(ts.drop_last()) + token_count_of(ts.last())
    }
}

/// Counts never shrink a sum: a prefix's total is at most the whole batch's.
proof fn lemma_total_tokens_prefix(ts: Seq<Seq<char>>, i: int)
    requires
        0 <= i <= ts.len(),
    ensures
        total_tokens(ts.take(i)) <= total_tokens(ts),
    decreases ts.len() - i,
{
    if i < ts.len() {
        lemma_total_tokens_prefix(ts, i + 1);
        assert(ts.take(i + 1).drop_last() =~= ts.take(i));
        assert(ts.take(i + 1).last() == ts[i]);
    } else {
        assert(ts.take(i) =~= ts);
    }
}

/// Counts the tokens of a batch of texts and sums them.  Fails exactly when
/// the sum does not fit the counter.
pub fn calculate_tokens(texts: &Vec<String>) -> (r: Result<usize, AppError>)
    ensures
        r matches Ok(n) ==> n as int == total_tokens(string_views(texts@)),
        (r is Err) <==> total_tokens(string_views(texts@)) > usize::MAX as int,
        r matches Err(e) ==> e == AppError::TokenizerUnavailable,
{
    let ghost ts = string_views(texts@);
    let mut total: usize = 0;
    let mut i: usize = 0;
    proof {
        assert(ts.take(0) =~= Seq::<Seq<char>>::empty());
    }
    while i < texts.len()
        invariant
            i <= texts@.len(),
            ts == string_views(texts@),
            total as int == total_tokens(ts.take(i as int)),
        decreases texts@.len() - i,
    {
        let n = match encode_token_count(texts[i].as_str()) {
            Some(n) => n,
            None => {
                return Err(AppError::TokenizerUnavailable);
            },
        };
        proof {
            assert(ts.take(i as int + 1).drop_last() =~= ts.take(i as int));
            assert(ts.take(i as int + 1).last() == ts[i as int]);
        }
        if n > usize::MAX - total {
            proof {
                assert(total_tokens(ts.take(i as int + 1)) > usize::MAX as int);
                lemma_total_tokens_prefix(ts, i as int + 1);
            }
            return Err(AppError::TokenizerUnavailable);
        }
        total = total + n;
        i = i + 1;
    }
    proof {
        assert(ts.take(texts@.len() as int) =~= ts);
    }
    Ok(total)
}

} // verus!
