//! The message filter: a compiled regular expression tested against the body
//! of a message.

use crate::message::{views, Message, MessageView};
use vstd::prelude::*;
use vstd::seq_lib::to_multiset_build;

verus! {

/// A compiled regular expression of the `regex` crate. Nothing of its inside
/// is known here; it is only ever asked whether it matches.
#[verifier::external_type_specification]
#[verifier::external_body]
pub struct ExRegex(regex::Regex);

/// What a compiled pattern stands for: the texts in which it finds a match.
pub uninterp spec fn language(regex: regex::Regex) -> Set<Seq<char>>;

/// `regex::Regex::is_match` searches the haystack from its start and says
/// whether the pattern matches anywhere in it. The answer depends on the
/// compiled pattern and on the haystack alone, so it is membership of the
/// haystack in the pattern's language.
pub assume_specification[ regex::Regex::is_match ](
    regex: &regex::Regex,
    haystack: &str,
) -> (found: bool)
    ensures
        found == language(*regex).contains(haystack@),
;

/// The test that a filter puts to a message: its body, and nothing else, must
/// be one of the `accepted` texts.
pub open spec fn admits(accepted: Set<Seq<char>>) -> spec_fn(MessageView) -> bool {
    |message: MessageView| accepted.contains(message.body)
}

/// The messages of `batch` that a filter lets through: those with an accepted
/// body, each as often as it occurs, in the order of the batch.
pub open spec fn kept(batch: Seq<MessageView>, accepted: Set<Seq<char>>) -> Seq<MessageView> {
    batch.filter(admits(accepted))
}

/// Whether `filter` lets `message` through.
pub fn passes(filter: &regex::Regex, message: &Message) -> (through: bool)
    ensures
        through == language(*filter).contains(message@.body),
{
    filter.is_match(message.body.as_str())
}

/// Taking one more message into account appends it to the survivors if its
/// body is accepted and leaves them unchanged if not.
pub proof fn lemma_kept_push(batch: Seq<MessageView>, message: MessageView, accepted: Set<Seq<char>>)
    ensures
        kept(batch.push(message), accepted) == if accepted.contains(message.body) {
            kept(batch, accepted).push(message)
        } else {
            kept(batch, accepted)
        },
{
    batch.lemma_filter_push(message, admits(accepted));
}

/// Filtering two stretches of a timeline one after the other gives the same
/// survivors as filtering them joined: where a batch ends does not matter.
pub proof fn lemma_kept_concat(
    first: Seq<MessageView>,
    second: Seq<MessageView>,
    accepted: Set<Seq<char>>,
)
    ensures
        kept(first + second, accepted) == kept(first, accepted) + kept(second, accepted),
{
    Seq::filter_distributes_over_add(first, second, admits(accepted));
}

/// A message is among the survivors exactly if it is in the batch and its body
/// is accepted.
pub proof fn lemma_kept_contains(
    batch: Seq<MessageView>,
    message: MessageView,
    accepted: Set<Seq<char>>,
)
    ensures
        kept(batch, accepted).contains(message) <==> batch.contains(message) && accepted.contains(
            message.body,
        ),
{
    let survivors = kept(batch, accepted);
    if survivors.contains(message) {
        let i = choose|i: int| 0 <= i < survivors.len() && survivors[i] == message;
        batch.lemma_filter_pred(admits(accepted), i);
        batch.lemma_filter_contains_rev(admits(accepted), message);
    }
    if batch.contains(message) && accepted.contains(message.body) {
        let i = choose|i: int| 0 <= i < batch.len() && batch[i] == message;
        batch.lemma_filter_contains(admits(accepted), i);
    }
}

/// Nothing is duplicated and nothing is dropped: a message with an accepted
/// body is among the survivors as many times as it is in the batch, and a
/// message with any other body not at all.
pub proof fn lemma_kept_counts(batch: Seq<MessageView>, message: MessageView, accepted: Set<Seq<char>>)
    ensures
        kept(batch, accepted).to_multiset().count(message) == if accepted.contains(message.body) {
            batch.to_multiset().count(message)
        } else {
            0
        },
    decreases batch.len(),
{
    if batch.len() == 0 {
        assert(kept(batch, accepted) =~= batch) by {
            reveal(Seq::filter);
        }
        batch.to_multiset_ensures();
        assert(batch.to_multiset().len() == 0);
    } else {
        let front = batch.drop_last();
        let last = batch.last();
        assert(batch =~= front.push(last));
        lemma_kept_counts(front, message, accepted);
        lemma_kept_push(front, last, accepted);
        to_multiset_build(front, last);
        to_multiset_build(kept(front, accepted), last);
    }
}

/// The messages of `batch` that `filter` lets through, in the order of the batch.
pub fn keep_matching(batch: Vec<Message>, filter: &regex::Regex) -> (survivors: Vec<Message>)
    ensures
        views(survivors@) == kept(views(batch@), language(*filter)),
{
    let ghost all = views(batch@);
    let ghost accepted = language(*filter);
    let mut survivors: Vec<Message> = Vec::new();
    assert(views(survivors@) =~= kept(all.take(0), accepted));
    for message in it: batch
        invariant
            all == views(it.seq()),
            accepted == language(*filter),
            views(survivors@) == kept(all.take(it.index() as int), accepted),
    {
        proof {
            let i = it.index() as int;
            assert(all.take(i + 1) =~= all.take(i).push(message@));
            lemma_kept_push(all.take(i), message@, accepted);
            assert(views(survivors@.push(message)) =~= views(survivors@).push(message@));
        }
        if passes(filter, &message) {
            survivors.push(message);
        }
    }
    assert(all.take(all.len() as int) =~= all);
    survivors
}

} // verus!
