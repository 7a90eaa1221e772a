//! Which cues statements give, and what an episode keeps of its draft.

use vstd::prelude::*;

use crate::episode::{Cue, Episode};
use crate::order::{strictly_ascending, words, Lexical};
use crate::statement::{statement_cues, EpisodeAtom, EpisodeContent, EpisodeDraft};

verus! {

/// A statement gives the cue of its predicate, two cues of its predicate in its
/// role, a cue of each term, and four cues of each term at its place in its
/// role; and no others.
pub proof fn law_statement_cues(
    role: u64,
    predicate: u64,
    arguments: Seq<u64>,
    word: Seq<int>,
    kind: u64,
    first: u64,
    second: u64,
    third: u64,
    fourth: u64,
)
    requires
        role <= 3,
        arguments.len() <= u64::MAX,
        word == seq![predicate as int] + arguments.map_values(|term: u64| term as int),
    ensures
        statement_cues(role, word).contains((kind, first, second, third, fourth)) <==> {
            ||| kind == 0 && first == predicate && second == 0 && third == 0 && fourth == 0
            ||| kind == 1 && arguments.contains(first) && second == 0 && third == 0 && fourth == 0
            ||| kind == 2 && first / 2 == role && second == predicate && third == 0 && fourth == 0
            ||| kind == 3 && first / 4 == role && second == predicate && third < arguments.len()
                && fourth == arguments[third as int]
        },
{
    let cue: Cue = (kind, first, second, third, fourth);
    let cues = statement_cues(role, word);
    assert(word[0] == predicate && word.len() == arguments.len() + 1);
    assert forall|place: int| 0 <= place < arguments.len() implies #[trigger] word[place + 1]
        == arguments[place] by {}
    if kind == 1 && arguments.contains(first) && second == 0 && third == 0 && fourth == 0 {
        let place = arguments.index_of(first);
        assert(word[place + 1] == first);
        assert(crate::statement::argument_gives(role, word, place, cue));
    }
    if kind == 3 && first / 4 == role && second == predicate && third < arguments.len() && fourth
        == arguments[third as int] {
        let place = third as int;
        assert(word[place + 1] == fourth);
        assert(crate::statement::argument_gives(role, word, place, cue));
    }
    if cues.contains(cue) && !crate::statement::predicate_gives(role, word, cue) {
        let place = choose|place: int|
            0 <= place < word.len() - 1 && crate::statement::argument_gives(role, word, place, cue);
        assert(word[place + 1] == arguments[place]);
        if kind == 1 {
            assert(arguments[place] == first);
        }
    }
}

/// The cues of an episode are those of its context statements, of its
/// observation, of its action and of its outcome, each in its own role.
pub proof fn law_episode_cues_are_those_of_its_statements(content: EpisodeContent, cue: Cue)
    ensures
        content.cues().contains(cue) <==> {
            ||| exists|i: int|
                0 <= i < content.context.len() && #[trigger] statement_cues(
                    0,
                    content.context[i],
                ).contains(cue)
            ||| statement_cues(1, content.observation).contains(cue)
            ||| content.action matches Some(word) && statement_cues(2, word).contains(cue)
            ||| content.outcome matches Some(word) && statement_cues(3, word).contains(cue)
        },
{
}

/// An episode keeps its draft: both times, the source, the observation, the
/// action, the outcome, and every context statement, each once and in order.
pub proof fn law_episodes_keep_their_statements(
    atom: EpisodeAtom,
    draft: EpisodeDraft,
    word: Seq<int>,
)
    requires
        atom.records(&draft),
    ensures
        atom.content().occurred_at == draft.occurred_at,
        atom.content().recorded_at == draft.recorded_at,
        atom.content().source == draft.source,
        atom.content().observation == draft.observation.word(),
        atom.content().action is Some <==> draft.action is Some,
        draft.action matches Some(statement) ==> atom.content().action == Some(statement.word()),
        atom.content().outcome is Some <==> draft.outcome is Some,
        draft.outcome matches Some(statement) ==> atom.content().outcome == Some(
            statement.word(),
        ),
        strictly_ascending(atom.content().context),
        atom.content().context.contains(word) <==> words(draft.context@).contains(word),
{
}

} // verus!
