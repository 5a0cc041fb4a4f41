//! Local token counting over the cl100k_base byte-pair encoding, with a
//! whitespace-count fallback when the tokenizer cannot be built.

use vstd::prelude::*;
use vstd::string::StringSliceAdditionalSpecFns;

verus! {

/// A token count for a block of text.
#[derive(Debug, Clone, Copy, PartialEq, Eq, Structural)]
pub struct TokenCountSummary {
    pub total_tokens: i64,
    pub cached_content_token_count: Option<i64>,
}

/// Why a token count could not be produced.
#[derive(Debug, Clone, PartialEq, Eq)]
pub enum TokenCountError {
    /// The tokenizer could not be loaded.
    TokenizerUnavailable(String),
}

/// The token sequence the cl100k_base encoding assigns to a text: a pure
/// function of the text.
pub uninterp spec fn cl100k_tokens(s: Seq<char>) -> Seq<u32>;

/// How many blank-separated words a byte string holds, counting ASCII
/// whitespace (space, tab, line feed, carriage return, vertical tab, form
/// feed) as separators.
pub open spec fn ws_word_count(s: Seq<u8>) -> int
    decreases s.len(),
{
    if s.len() == 0 {
        0
    } else {
        ws_word_count(s.drop_last()) + if !is_ws(s.last()) && (s.len() == 1 || is_ws(
            s[s.len() - 2],
        )) {
            1int
        } else {
            0int
        }
    }
}

/// Whether a byte is ASCII whitespace.
pub open spec fn is_ws(b: u8) -> bool {
    b == 32 || b == 9 || b == 10 || b == 13 || b == 11 || b == 12
}

/// Counts tokens with the cl100k_base encoding (the one GPT-4-class models
/// use); falls back to a whitespace word count if the tokenizer cannot be
/// built.
pub fn count_tokens_local(text: &str) -> (r: usize)
    ensures
        r as int == cl100k_tokens(text@).len() || r as int == ws_word_count(text.spec_bytes()),
        text@.len() == 0 ==> r == 0,
{
    proof {
        if text@.len() == 0 {
            assert(text.spec_bytes() =~= Seq::<u8>::empty());
        }
    }
    match encode_cl100k(text) {
        Some(tokens) => tokens.len(),
        None => ws_count(text),
    }
}

/// Counts tokens, reporting the result as a summary record. The count never
/// fails: the fallback word count stands in when the tokenizer is missing.
pub fn count_tokens(text: &str) -> (r: Result<TokenCountSummary, TokenCountError>)
    ensures
        r is Ok,
        ({
            let t = r->Ok_0.total_tokens as int;
            (t == cl100k_tokens(text@).len() || t == ws_word_count(text.spec_bytes()) || t
                == i64::MAX as int) && r->Ok_0.cached_content_token_count is None
        }),
        text@.len() == 0 ==> r->Ok_0.total_tokens == 0,
{
    let count = count_tokens_local(text);
    let total: i64 = if count > i64::MAX as usize {
        i64::MAX
    } else {
        count as i64
    };
    Ok(TokenCountSummary { total_tokens: total, cached_content_token_count: None })
}

/// Counts blank-separated words, mirroring `ws_word_count`.
fn ws_count(text: &str) -> (r: usize)
    ensures
        r as int == ws_word_count(text.spec_bytes()),
{
    let bytes = text.as_bytes();
    let n = bytes.len();
    let mut count: usize = 0;
    let mut i: usize = 0;
    proof {
        assert(bytes@.subrange(0, 0) =~= Seq::<u8>::empty());
    }
    while i < n
        invariant
            i <= n,
            n == bytes@.len(),
            bytes@ == text.spec_bytes(),
            count as int == ws_word_count(bytes@.subrange(0, i as int)),
            count <= i,
        decreases n - i,
    {
        let b = bytes[i];
        let starts_word = !is_ws_exec(b) && (i == 0 || {
            let prev = bytes[i - 1];
            is_ws_exec(prev)
        });
        if starts_word {
            count = count + 1;
        }
        proof {
            let pre = bytes@.subrange(0, i as int);
            let cur = bytes@.subrange(0, i as int + 1);
            assert(cur.drop_last() =~= pre);
            assert(cur.last() == b);
            if i > 0 {
                assert(cur[cur.len() - 2] == bytes@[i as int - 1]);
            }
        }
        i = i + 1;
    }
    proof {
        assert(bytes@.subrange(0, n as int) =~= bytes@);
    }
    count
}

/// Whether a byte is ASCII whitespace, mirroring `is_ws`.
fn is_ws_exec(b: u8) -> (r: bool)
    ensures
        r == is_ws(b),
{
    b == 32 || b == 9 || b == 10 || b == 13 || b == 11 || b == 12
}

/// Relies on tiktoken_rs::cl100k_base and
/// tiktoken_rs::CoreBPE::encode_with_special_tokens: the tokenizer is built
/// from its embedded vocabulary, the token sequence it assigns depends on
/// the text alone, and an empty text yields no tokens; `None` when the
/// tokenizer cannot be built.
#[verifier::external_body]
fn encode_cl100k(text: &str) -> (r: Option<Vec<u32>>)
    ensures
        match r {
            Some(v) => v@ == cl100k_tokens(text@) && (text@.len() == 0 ==> v@.len() == 0),
            None => true,
        },
{
    match tiktoken_rs::cl100k_base() {
        Ok(bpe) => Some(bpe.encode_with_special_tokens(text)),
        Err(_) => None,
    }
}

} // verus!
