//! What reading several documents in a row gives, compared with reading one.
use vstd::prelude::*;
use crate::grammar::{
    lemma_skip_garbage,
    parse_document,
    parse_value,
    parse_values,
    parse_values_from,
    skip_garbage,
};
use crate::value::{JsonParse, JsonValue};

verus! {

proof fn lemma_values_from(
    s: Seq<u8>,
    i: int,
    strategy: JsonParse,
    dec: spec_fn(Seq<u8>) -> u64,
    out: Seq<JsonValue>,
)
    requires
        0 <= i <= s.len(),
    ensures
        ({
            let (vals, stop, res) = parse_values_from(s, i, strategy, dec, out, i);
            &&& i <= stop <= s.len()
            &&& (res is Ok <==> stop == s.len())
            &&& vals.len() >= out.len()
            &&& (vals.len() == out.len() <==> i == s.len())
        }),
    decreases s.len() - i,
{
    if i < s.len() {
        if let Ok((v, q)) = parse_value(s, i, 0, strategy, dec) {
            if let Ok(t) = skip_garbage(s, q, strategy) {
                if i < t <= s.len() {
                    lemma_values_from(s, t, strategy, dec, out.push(v));
                }
            }
        }
    }
}

/// Reading several documents stops within the input; it succeeds exactly
/// when it stops at the end, and gives no values exactly for empty input.
pub proof fn law_parse_multi_stop(s: Seq<u8>, strategy: JsonParse, dec: spec_fn(Seq<u8>) -> u64)
    ensures
        ({
            let (vals, stop, res) = parse_values(s, strategy, dec);
            &&& 0 <= stop <= s.len()
            &&& (res is Ok <==> stop == s.len())
            &&& (vals.len() == 0 <==> s.len() == 0)
        }),
{
    lemma_values_from(s, 0, strategy, dec, Seq::empty());
}

/// A document that reads whole as one value reads, as several documents,
/// as that one value, stopping at the end without an error.
#[verifier::spinoff_prover]
pub proof fn law_parse_multi_single(s: Seq<u8>, strategy: JsonParse, dec: spec_fn(Seq<u8>) -> u64)
    ensures
        parse_document(s, strategy, dec) matches Ok(v) ==> parse_values(s, strategy, dec) == (
            seq![v],
            s.len() as int,
            Ok::<(), Seq<char>>(()),
        ),
{
    if s.len() == 0 {
        assert(crate::grammar::skip_ws(s, 0) == 0);
        assert(crate::grammar::next_token(s, 0, strategy) is Err);
        assert(parse_value(s, 0, 0, strategy, dec) is Err);
    } else if let Ok(v) = parse_document(s, strategy, dec) {
        let (v0, q) = parse_value(s, 0, 0, strategy, dec)->Ok_0;
        assert(v0 == v);
        assert(skip_garbage(s, q, strategy) == Ok::<int, Seq<char>>(s.len() as int));
        let one = Seq::<JsonValue>::empty().push(v);
        assert(parse_values_from(s, s.len() as int, strategy, dec, one, s.len() as int) == (
            one,
            s.len() as int,
            Ok::<(), Seq<char>>(()),
        ));
        assert(one =~= seq![v]);
    }
}

} // verus!
