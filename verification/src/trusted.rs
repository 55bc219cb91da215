//! The calls into other crates, and what the rest of the library believes of
//! them. Nothing in this file is proved.

use std::convert::Infallible;

use rand::seq::SliceRandom;
use unicode_segmentation::UnicodeSegmentation;
use unwrap_infallible::UnwrapInfallible;
use vstd::prelude::*;

use crate::text::{concat, slice_texts};

verus! {

/// The extended grapheme clusters of `text`, in order, as
/// `unicode-segmentation` finds them by the rules of Unicode Standard Annex 29.
pub uninterp spec fn grapheme_clusters(text: Seq<char>) -> Seq<Seq<char>>;

/// `UnicodeSegmentation::graphemes` with `is_extended` set, collected.
///
/// Believed of it: the iterator hands out `grapheme_clusters` of the text;
/// each cluster is a slice of the text that begins where the one before it
/// ended, the first at the start and the last at the end, so that together
/// they are the text; and no cluster is empty.
#[verifier::external_body]
pub(crate) fn graphemes<'a>(text: &'a str) -> (clusters: Vec<&'a str>)
    ensures
        slice_texts(clusters@) == grapheme_clusters(text@),
        concat(slice_texts(clusters@)) == text@,
        forall|i: int| 0 <= i < clusters@.len() ==> (#[trigger] clusters@[i])@.len() > 0,
{
    text.graphemes(true).collect()
}

/// `UnwrapInfallible::unwrap_infallible` on a `Result` whose error is
/// `Infallible`.
///
/// Believed of it: it hands out the value of the `Ok`, which such a result
/// always is.
#[verifier::external_body]
pub(crate) fn unwrap_infallible<T>(outcome: Result<T, Infallible>) -> (unwrapped: T)
    ensures
        unwrapped == outcome->Ok_0,
{
    outcome.unwrap_infallible()
}

/// The handle on the random number generator of the running thread.
#[verifier::external_type_specification]
#[verifier::external_body]
pub struct ExThreadRng(rand::rngs::ThreadRng);

/// `rand::thread_rng`. Nothing is believed of the generator it hands out.
/// It panics where the system gives the generator no seed.
pub assume_specification[ rand::thread_rng ]() -> (rng: rand::rngs::ThreadRng)
;

/// `SliceRandom::shuffle` on the items of a vector.
///
/// Believed of it: it only swaps items, so the same items are there
/// afterwards, each as often as before. Nothing is believed of their order.
#[verifier::external_body]
pub(crate) fn shuffle<T>(items: &mut Vec<T>, rng: &mut rand::rngs::ThreadRng)
    ensures
        final(items)@.to_multiset() == old(items)@.to_multiset(),
{
    items.shuffle(rng)
}

} // verus!
