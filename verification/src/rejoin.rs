//! Laws of the answer splitter: what joining answers with the separator and
//! splitting a line have to do with each other.

use vstd::prelude::*;

use crate::splitter::{
    delimiter, ends_with_delimiter, has_lone_backslash, is_backslash, split_answers, split_from,
    split_scan, split_start, SplitState,
};
use crate::text::{concat, join, occurs_in};

verus! {

/// The answers in progress, joined: every completed answer with a separator
/// behind it, then the text that the scan is gathering.
pub open spec fn joined_so_far(state: SplitState) -> Seq<char> {
    if state.done.len() == 0 {
        state.buffer
    } else {
        join(state.done, delimiter()) + delimiter() + state.buffer
    }
}

/// Joining the answers of a state is joining what it has in progress.
proof fn lemma_join_of_answers(state: SplitState)
    ensures
        join(state.done.push(state.buffer), delimiter()) == joined_so_far(state),
{
    let all = state.done.push(state.buffer);
    assert(all.drop_last() =~= state.done);
    if state.done.len() == 0 {
        assert(all.len() == 1);
    }
}

/// On a line without a lone backslash the scan drops nothing but separators:
/// its answers, joined with the separator, are the line as it was written.
pub proof fn lemma_join_restores_line(graphemes: Seq<Seq<char>>)
    requires
        !has_lone_backslash(graphemes),
    ensures
        !split_scan(graphemes).escape,
        join(split_answers(graphemes), delimiter()) == concat(graphemes),
    decreases graphemes.len(),
{
    let end = split_scan(graphemes);
    if graphemes.len() == 0 {
        assert(split_answers(graphemes) =~= seq![Seq::<char>::empty()]);
    } else {
        let earlier = graphemes.drop_last();
        let before = split_scan(earlier);
        assert forall|i: int| 0 <= i < earlier.len() implies !is_backslash(
            #[trigger] earlier[i],
        ) by {
            assert(earlier[i] == graphemes[i]);
        }
        lemma_join_restores_line(earlier);
        assert(!is_backslash(graphemes.last()));
        lemma_join_of_answers(before);
        lemma_join_of_answers(end);
        if ends_with_delimiter(before.buffer) {
            let kept = before.buffer.take(before.buffer.len() - 2);
            assert(before.buffer =~= kept + delimiter());
            assert(end.done.drop_last() =~= before.done);
            assert(join(end.done, delimiter()) + delimiter() =~= joined_so_far(before));
        }
        assert(joined_so_far(end) =~= joined_so_far(before) + graphemes.last());
    }
}

/// The comma and the space of a separator, each a grapheme of its own.
pub open spec fn separator_graphemes() -> Seq<Seq<char>> {
    seq![seq![','], seq![' ']]
}

/// The graphemes of the line that holds `answers`, each given by its own
/// graphemes, with a separator between each two neighbours.
pub open spec fn joined_line(answers: Seq<Seq<Seq<char>>>) -> Seq<Seq<char>>
    decreases answers.len(),
{
    if answers.len() == 0 {
        Seq::empty()
    } else if answers.len() == 1 {
        answers[0]
    } else {
        joined_line(answers.drop_last()) + separator_graphemes() + answers.last()
    }
}

/// The text of each of `answers`.
pub open spec fn answer_texts(answers: Seq<Seq<Seq<char>>>) -> Seq<Seq<char>> {
    Seq::new(answers.len(), |i: int| concat(answers[i]))
}

/// Whether `answers` can be written on a line as they are: none holds the
/// separator or a lone backslash, and where there are several, the last one
/// has a grapheme.
pub open spec fn writable(answers: Seq<Seq<Seq<char>>>) -> bool {
    &&& answers.len() >= 1
    &&& forall|i: int| 0 <= i < answers.len() ==> !has_lone_backslash(#[trigger] answers[i])
    &&& forall|i: int|
        0 <= i < answers.len() ==> !occurs_in(delimiter(), concat(#[trigger] answers[i]))
    &&& answers.len() >= 2 ==> answers.last().len() >= 1
}

/// Scanning two runs of graphemes one after the other is scanning them as one.
pub proof fn lemma_scan_in_two(state: SplitState, first: Seq<Seq<char>>, second: Seq<Seq<char>>)
    ensures
        split_from(state, first + second) == split_from(split_from(state, first), second),
    decreases second.len(),
{
    if second.len() == 0 {
        assert(first + second =~= first);
    } else {
        assert((first + second).drop_last() =~= first + second.drop_last());
        lemma_scan_in_two(state, first, second.drop_last());
    }
}

/// The first graphemes of a text are the start of that text.
proof fn lemma_concat_of_prefix(parts: Seq<Seq<char>>, k: int)
    requires
        0 <= k <= parts.len(),
    ensures
        concat(parts.take(k)).len() <= concat(parts).len(),
        concat(parts.take(k)) == concat(parts).take(concat(parts.take(k)).len() as int),
    decreases parts.len() - k,
{
    if k == parts.len() {
        assert(parts.take(k) =~= parts);
    } else {
        lemma_concat_of_prefix(parts, k + 1);
        assert(parts.take(k + 1).drop_last() =~= parts.take(k));
    }
}

/// A text that does not hold the separator does not end in it, and neither
/// does what its first graphemes make.
proof fn lemma_no_separator_in_prefix(parts: Seq<Seq<char>>, k: int)
    requires
        0 <= k <= parts.len(),
        !occurs_in(delimiter(), concat(parts)),
    ensures
        !ends_with_delimiter(concat(parts.take(k))),
{
    let whole = concat(parts);
    let start = concat(parts.take(k));
    lemma_concat_of_prefix(parts, k);
    if ends_with_delimiter(start) {
        let at = start.len() - 2;
        assert(whole.subrange(at, at + delimiter().len()) =~= delimiter());
    }
}

/// From a state whose text in progress is still empty, graphemes whose
/// texts so far never end in the separator are all gathered.
proof fn lemma_scan_gathers(state: SplitState, graphemes: Seq<Seq<char>>)
    requires
        !state.escape,
        state.buffer.len() == 0,
        !has_lone_backslash(graphemes),
        forall|k: int|
            0 <= k < graphemes.len() ==> !ends_with_delimiter(concat(#[trigger] graphemes.take(k))),
    ensures
        split_from(state, graphemes) == (SplitState {
            done: state.done,
            buffer: concat(graphemes),
            escape: false,
        }),
    decreases graphemes.len(),
{
    if graphemes.len() == 0 {
        assert(concat(graphemes) =~= state.buffer);
    } else {
        let earlier = graphemes.drop_last();
        assert forall|k: int| 0 <= k < earlier.len() implies !ends_with_delimiter(
            concat(#[trigger] earlier.take(k)),
        ) by {
            assert(earlier.take(k) =~= graphemes.take(k));
        }
        assert forall|i: int| 0 <= i < earlier.len() implies !is_backslash(
            #[trigger] earlier[i],
        ) by {
            assert(earlier[i] == graphemes[i]);
        }
        lemma_scan_gathers(state, earlier);
        assert(graphemes.take(graphemes.len() - 1) =~= earlier);
        assert(!is_backslash(graphemes.last()));
    }
}

/// From a state whose text in progress ends in a separator, the first
/// grapheme completes an answer, and graphemes whose texts so far never end
/// in the separator are then all gathered.
proof fn lemma_scan_completes(state: SplitState, graphemes: Seq<Seq<char>>)
    requires
        !state.escape,
        ends_with_delimiter(state.buffer),
        graphemes.len() >= 1,
        !has_lone_backslash(graphemes),
        forall|k: int|
            1 <= k < graphemes.len() ==> !ends_with_delimiter(concat(#[trigger] graphemes.take(k))),
    ensures
        split_from(state, graphemes) == (SplitState {
            done: state.done.push(state.buffer.take(state.buffer.len() - 2)),
            buffer: concat(graphemes),
            escape: false,
        }),
    decreases graphemes.len(),
{
    let earlier = graphemes.drop_last();
    assert(!is_backslash(graphemes.last()));
    if graphemes.len() == 1 {
        assert(split_from(state, earlier) == state);
        assert(concat(earlier).len() == 0);
        assert(concat(graphemes) =~= graphemes.last());
    } else {
        assert forall|k: int| 1 <= k < earlier.len() implies !ends_with_delimiter(
            concat(#[trigger] earlier.take(k)),
        ) by {
            assert(earlier.take(k) =~= graphemes.take(k));
        }
        assert forall|i: int| 0 <= i < earlier.len() implies !is_backslash(
            #[trigger] earlier[i],
        ) by {
            assert(earlier[i] == graphemes[i]);
        }
        lemma_scan_completes(state, earlier);
        assert(graphemes.take(graphemes.len() - 1) =~= earlier);
    }
}

/// An answer with a separator behind it: the texts that its first graphemes
/// make never end in the separator, and the whole is the answer's text and
/// the separator.
proof fn lemma_answer_then_separator(answer: Seq<Seq<char>>)
    requires
        !has_lone_backslash(answer),
        !occurs_in(delimiter(), concat(answer)),
    ensures
        !has_lone_backslash(answer + separator_graphemes()),
        concat(answer + separator_graphemes()) == concat(answer) + delimiter(),
        forall|k: int|
            0 <= k < answer.len() + 2 ==> !ends_with_delimiter(
                concat(#[trigger] (answer + separator_graphemes()).take(k)),
            ),
{
    let run = answer + separator_graphemes();
    let upto_comma = answer.push(seq![',']);
    assert(run.drop_last() =~= upto_comma);
    assert(upto_comma.drop_last() =~= answer);
    assert(concat(upto_comma) =~= concat(answer).push(','));
    assert(concat(run) =~= concat(answer) + delimiter());
    assert forall|i: int| 0 <= i < run.len() implies !is_backslash(#[trigger] run[i]) by {
        if i < answer.len() {
            assert(run[i] == answer[i]);
        }
    }
    assert forall|k: int| 0 <= k < answer.len() + 2 implies !ends_with_delimiter(
        concat(#[trigger] run.take(k)),
    ) by {
        if k <= answer.len() {
            assert(run.take(k) =~= answer.take(k));
            lemma_no_separator_in_prefix(answer, k);
        } else {
            assert(run.take(k) =~= upto_comma);
        }
    }
}

/// The scan after the line of `answers` and one more separator: all answers
/// but the last are completed, and the last one is in progress with the
/// separator behind it.
proof fn lemma_scan_of_joined_line(answers: Seq<Seq<Seq<char>>>)
    requires
        answers.len() >= 1,
        forall|i: int| 0 <= i < answers.len() ==> !has_lone_backslash(#[trigger] answers[i]),
        forall|i: int|
            0 <= i < answers.len() ==> !occurs_in(delimiter(), concat(#[trigger] answers[i])),
    ensures
        split_scan(joined_line(answers) + separator_graphemes()) == (SplitState {
            done: answer_texts(answers).drop_last(),
            buffer: concat(answers.last()) + delimiter(),
            escape: false,
        }),
    decreases answers.len(),
{
    let last = answers.last();
    let run = last + separator_graphemes();
    lemma_answer_then_separator(last);
    if answers.len() == 1 {
        lemma_scan_gathers(split_start(), run);
        assert(answer_texts(answers).drop_last() =~= Seq::<Seq<char>>::empty());
    } else {
        let earlier = answers.drop_last();
        assert forall|i: int| 0 <= i < earlier.len() implies !has_lone_backslash(
            #[trigger] earlier[i],
        ) by {
            assert(earlier[i] == answers[i]);
        }
        assert forall|i: int| 0 <= i < earlier.len() implies !occurs_in(
            delimiter(),
            concat(#[trigger] earlier[i]),
        ) by {
            assert(earlier[i] == answers[i]);
        }
        lemma_scan_of_joined_line(earlier);
        let head = joined_line(earlier) + separator_graphemes();
        let reached = split_scan(head);
        assert(joined_line(answers) + separator_graphemes() =~= head + run);
        lemma_scan_in_two(split_start(), head, run);
        lemma_scan_completes(reached, run);
        assert(reached.buffer.take(reached.buffer.len() - 2) =~= concat(earlier.last()));
        assert(answer_texts(answers).drop_last() =~= answer_texts(earlier).drop_last().push(
            concat(earlier.last()),
        ));
    }
}

/// Splitting undoes joining: the line on which answers are written, with a
/// separator between each two, splits into the texts of those answers.
pub proof fn lemma_split_inverts_join(answers: Seq<Seq<Seq<char>>>)
    requires
        writable(answers),
    ensures
        split_answers(joined_line(answers)) == answer_texts(answers),
{
    let last = answers.last();
    assert forall|k: int| 0 <= k < last.len() implies !ends_with_delimiter(
        concat(#[trigger] last.take(k)),
    ) by {
        lemma_no_separator_in_prefix(last, k);
    }
    if answers.len() == 1 {
        lemma_scan_gathers(split_start(), last);
        assert(split_answers(joined_line(answers)) =~= answer_texts(answers));
    } else {
        let earlier = answers.drop_last();
        assert forall|i: int| 0 <= i < earlier.len() implies !has_lone_backslash(
            #[trigger] earlier[i],
        ) by {
            assert(earlier[i] == answers[i]);
        }
        assert forall|i: int| 0 <= i < earlier.len() implies !occurs_in(
            delimiter(),
            concat(#[trigger] earlier[i]),
        ) by {
            assert(earlier[i] == answers[i]);
        }
        lemma_scan_of_joined_line(earlier);
        let head = joined_line(earlier) + separator_graphemes();
        let reached = split_scan(head);
        lemma_scan_in_two(split_start(), head, last);
        lemma_scan_completes(reached, last);
        assert(reached.buffer.take(reached.buffer.len() - 2) =~= concat(earlier.last()));
        assert(split_answers(joined_line(answers)) =~= answer_texts(answers));
    }
}

/// Once the scan has completed an answer, the next one has text: where a
/// line has several answers and no empty grapheme, the last answer is not
/// empty.
pub proof fn lemma_last_of_several_has_text(graphemes: Seq<Seq<char>>)
    requires
        forall|i: int| 0 <= i < graphemes.len() ==> (#[trigger] graphemes[i]).len() > 0,
    ensures
        split_scan(graphemes).done.len() >= 1 ==> split_scan(graphemes).buffer.len() >= 1,
    decreases graphemes.len(),
{
    if graphemes.len() > 0 {
        let earlier = graphemes.drop_last();
        assert forall|i: int| 0 <= i < earlier.len() implies (#[trigger] earlier[i]).len() > 0 by {
            assert(earlier[i] == graphemes[i]);
        }
        lemma_last_of_several_has_text(earlier);
        assert(graphemes[graphemes.len() - 1].len() > 0);
    }
}

/// Joining the answers of a line with the separator and splitting the
/// joined line gives the same answers again, where none of them holds the
/// separator or a lone backslash. The answers are those that the scan of
/// `graphemes` gives; `answers` holds each of them by the graphemes that it
/// has on the joined line.
pub proof fn lemma_resplit_gives_same_answers(
    graphemes: Seq<Seq<char>>,
    answers: Seq<Seq<Seq<char>>>,
)
    requires
        forall|i: int| 0 <= i < graphemes.len() ==> (#[trigger] graphemes[i]).len() > 0,
        answer_texts(answers) == split_answers(graphemes),
        forall|i: int| 0 <= i < answers.len() ==> !has_lone_backslash(#[trigger] answers[i]),
        forall|i: int|
            0 <= i < answers.len() ==> !occurs_in(delimiter(), concat(#[trigger] answers[i])),
    ensures
        split_answers(joined_line(answers)) == split_answers(graphemes),
{
    let texts = split_answers(graphemes);
    assert(answers.len() == texts.len());
    if answers.len() >= 2 {
        lemma_last_of_several_has_text(graphemes);
        assert(texts.last() == concat(answers.last()));
        assert(concat(answers.last()).len() >= 1);
    }
    lemma_split_inverts_join(answers);
}

} // verus!
