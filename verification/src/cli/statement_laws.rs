//! What flattening statement drafts and resolving their symbols give together.

use vstd::prelude::*;

use crate::cli::statements::{
    all_statements, draft_statements, next_draft, next_drafts, next_optional, next_statement,
    next_statements, optional_count, optional_list, optional_texts, predicate_texts, shapes_draft,
    statement_texts, term_texts, DraftWords, EpisodeShape, StatementText, Taken, TextEpisodeDraft,
    TextStatement,
};
use crate::model::{PredicateId, TermId};
use crate::statement::statement_word;

verus! {

/// The texts that predicate and term identifiers name.
pub ghost struct Names {
    /// Predicates by identifier.
    pub predicates: Map<u64, Seq<char>>,
    /// Terms by identifier.
    pub terms: Map<u64, Seq<char>>,
}

/// The identifiers of flattened drafts.
pub ghost struct Symbols {
    /// Predicates in order.
    pub predicates: Seq<PredicateId>,
    /// Terms in order.
    pub terms: Seq<TermId>,
}

impl Names {
    /// The identifiers behind those taken name the statements.
    pub open spec fn names_statements(
        self,
        symbols: Symbols,
        taken: Taken,
        statements: Seq<StatementText>,
    ) -> bool {
        let terms = term_texts(statements);
        &&& taken.0 + statements.len() <= symbols.predicates.len()
        &&& taken.1 + terms.len() <= symbols.terms.len()
        &&& forall|k: int|
            0 <= k < statements.len() ==> self.predicates[(#[trigger] symbols.predicates[taken.0
                + k]).0] == statements[k].0
        &&& forall|k: int|
            0 <= k < terms.len() ==> self.terms[(#[trigger] symbols.terms[taken.1 + k]).0]
                == terms[k]
    }

    /// The statement that a word names.
    pub open spec fn named(self, word: Seq<int>) -> StatementText {
        (
            self.predicates[word[0] as u64],
            word.skip(1).map_values(|term: int| self.terms[term as u64]),
        )
    }

    /// The statements that words name.
    pub open spec fn named_all(self, found: Seq<Seq<int>>) -> Seq<StatementText> {
        found.map_values(|word: Seq<int>| self.named(word))
    }

    /// The statement that a word names, if there is one.
    pub open spec fn named_optional(self, word: Option<Seq<int>>) -> Option<StatementText> {
        match word {
            Some(word) => Some(self.named(word)),
            None => None,
        }
    }

    /// The words name the statements of the draft.
    pub open spec fn names_draft(self, found: DraftWords, draft: TextEpisodeDraft) -> bool {
        &&& self.named_all(found.context) == statement_texts(draft.context@)
        &&& self.named(found.observation) == draft.observation@
        &&& self.named_optional(found.action) == optional_texts(draft.action)
        &&& self.named_optional(found.outcome) == optional_texts(draft.outcome)
    }
}

/// Every statement has a term.
pub open spec fn all_termed(statements: Seq<StatementText>) -> bool {
    forall|i: int| 0 <= i < statements.len() ==> (#[trigger] statements[i]).1.len() > 0
}

/// What is taken behind the statements.
pub open spec fn behind(taken: Taken, statements: Seq<StatementText>) -> Taken {
    (taken.0 + statements.len(), taken.1 + term_texts(statements).len())
}

proof fn lemma_terms_join(first: Seq<StatementText>, second: Seq<StatementText>)
    ensures
        term_texts(first + second) == term_texts(first) + term_texts(second),
    decreases second.len(),
{
    let all = first + second;
    if second.len() == 0 {
        assert(all =~= first);
        assert(term_texts(first) + term_texts(second) =~= term_texts(first));
    } else {
        lemma_terms_join(first, second.drop_last());
        assert(all.drop_last() =~= first + second.drop_last());
        assert(all.last() == second.last());
        assert(term_texts(all) =~= term_texts(first) + term_texts(second));
    }
}

proof fn lemma_split(
    names: Names,
    symbols: Symbols,
    taken: Taken,
    first: Seq<StatementText>,
    second: Seq<StatementText>,
)
    requires
        names.names_statements(symbols, taken, first + second),
        all_termed(first + second),
    ensures
        names.names_statements(symbols, taken, first),
        names.names_statements(symbols, behind(taken, first), second),
        all_termed(first),
        all_termed(second),
        behind(behind(taken, first), second) == behind(taken, first + second),
{
    let all = first + second;
    lemma_terms_join(first, second);
    assert forall|k: int| 0 <= k < first.len() implies names.predicates[(
    #[trigger] symbols.predicates[taken.0 + k]).0] == first[k].0 by {
        assert(all[k] == first[k]);
    }
    assert forall|k: int| 0 <= k < term_texts(first).len() implies names.terms[(
    #[trigger] symbols.terms[taken.1 + k]).0] == term_texts(first)[k] by {
        assert(term_texts(all)[k] == term_texts(first)[k]);
    }
    let middle = behind(taken, first);
    assert forall|k: int| 0 <= k < second.len() implies names.predicates[(
    #[trigger] symbols.predicates[middle.0 + k]).0] == second[k].0 by {
        let at = first.len() + k;
        assert(names.predicates[symbols.predicates[taken.0 + at].0] == all[at].0);
    }
    assert forall|k: int| 0 <= k < term_texts(second).len() implies names.terms[(
    #[trigger] symbols.terms[middle.1 + k]).0] == term_texts(second)[k] by {
        let at = term_texts(first).len() + k;
        assert(names.terms[symbols.terms[taken.1 + at].0] == term_texts(all)[at]);
    }
    assert forall|i: int| 0 <= i < first.len() implies (#[trigger] first[i]).1.len() > 0 by {
        assert(all[i].1.len() > 0);
    }
    assert forall|i: int| 0 <= i < second.len() implies (#[trigger] second[i]).1.len() > 0 by {
        assert(all[first.len() + i].1.len() > 0);
    }
}

proof fn lemma_single_terms(statement: StatementText)
    ensures
        term_texts(seq![statement]) == statement.1,
{
    assert(seq![statement].drop_last() =~= Seq::empty());
    assert(term_texts(seq![statement].drop_last()) =~= Seq::empty());
    assert(term_texts(seq![statement]) =~= statement.1);
}

proof fn lemma_statement_resolves(
    names: Names,
    symbols: Symbols,
    taken: Taken,
    statement: StatementText,
)
    requires
        names.names_statements(symbols, taken, seq![statement]),
        statement.1.len() > 0,
    ensures
        ({
            let result = next_statement(
                symbols.predicates,
                symbols.terms,
                taken,
                statement.1.len(),
            );
            &&& result is Ok
            &&& result->Ok_0.1 == behind(taken, seq![statement])
            &&& names.named(result->Ok_0.0) == statement
        }),
{
    lemma_single_terms(statement);
    let predicate = symbols.predicates[taken.0 as int];
    let arguments = symbols.terms.subrange(
        taken.1 as int,
        (taken.1 + statement.1.len()) as int,
    );
    let word = statement_word(predicate, arguments);
    assert(names.predicates[symbols.predicates[taken.0 + 0int].0] == seq![statement][0].0);
    assert(word[0] == predicate.0);
    assert(word.skip(1).len() == arguments.len());
    assert forall|k: int| 0 <= k < statement.1.len() implies names.named(word).1[k]
        == statement.1[k] by {
        assert(word.skip(1)[k] == arguments[k].0);
        assert(names.terms[symbols.terms[taken.1 + k].0] == term_texts(seq![statement])[k]);
    }
    assert(names.named(word).1 =~= statement.1);
}

proof fn lemma_statements_resolve(
    names: Names,
    symbols: Symbols,
    taken: Taken,
    statements: Seq<StatementText>,
    counts: Seq<usize>,
)
    requires
        names.names_statements(symbols, taken, statements),
        all_termed(statements),
        counts.len() == statements.len(),
        forall|i: int|
            0 <= i < counts.len() ==> (#[trigger] counts[i]) == statements[i].1.len(),
    ensures
        ({
            let result = next_statements(symbols.predicates, symbols.terms, taken, counts);
            &&& result is Ok
            &&& result->Ok_0.1 == behind(taken, statements)
            &&& names.named_all(result->Ok_0.0) == statements
        }),
    decreases statements.len(),
{
    if statements.len() == 0 {
        assert(names.named_all(Seq::empty()) =~= statements);
    } else {
        let rest = statements.drop_last();
        let last = statements.last();
        assert(statements =~= rest + seq![last]);
        lemma_split(names, symbols, taken, rest, seq![last]);
        assert forall|i: int| 0 <= i < rest.len() implies (#[trigger] counts.drop_last()[i])
            == rest[i].1.len() by {
            assert(counts[i] == statements[i].1.len());
        }
        lemma_statements_resolve(names, symbols, taken, rest, counts.drop_last());
        assert(statements[statements.len() - 1].1.len() > 0);
        assert(counts[counts.len() - 1] == statements[statements.len() - 1].1.len());
        lemma_statement_resolves(names, symbols, behind(taken, rest), last);
        let earlier = next_statements(
            symbols.predicates,
            symbols.terms,
            taken,
            counts.drop_last(),
        )->Ok_0.0;
        let found = next_statements(symbols.predicates, symbols.terms, taken, counts)->Ok_0.0;
        assert(found.drop_last() =~= earlier);
        assert(names.named_all(earlier).len() == earlier.len());
        assert(names.named_all(found) =~= names.named_all(earlier).push(last));
        assert(statements =~= rest.push(last));
    }
}

proof fn lemma_optional_resolves(
    names: Names,
    symbols: Symbols,
    taken: Taken,
    statement: Option<TextStatement>,
)
    requires
        names.names_statements(symbols, taken, optional_list(statement)),
        all_termed(optional_list(statement)),
        statement matches Some(text) ==> text.terms@.len() <= usize::MAX,
    ensures
        ({
            let result = next_optional(
                symbols.predicates,
                symbols.terms,
                taken,
                optional_count(statement),
            );
            &&& result is Ok
            &&& result->Ok_0.1 == behind(taken, optional_list(statement))
            &&& names.named_optional(result->Ok_0.0) == optional_texts(statement)
        }),
{
    match statement {
        Some(text) => {
            assert(optional_list(statement)[0] == text@);
            assert(text@.1.len() == text.terms@.len());
            lemma_statement_resolves(names, symbols, taken, text@);
        },
        None => {
            assert(term_texts(optional_list(statement)) =~= Seq::empty());
        },
    }
}

proof fn lemma_draft_resolves(
    names: Names,
    symbols: Symbols,
    taken: Taken,
    shape: EpisodeShape,
    draft: TextEpisodeDraft,
)
    requires
        shapes_draft(shape, draft),
        fits_counts(draft),
        names.names_statements(symbols, taken, draft_statements(draft)),
        all_termed(draft_statements(draft)),
    ensures
        ({
            let result = next_draft(symbols.predicates, symbols.terms, taken, shape);
            &&& result is Ok
            &&& result->Ok_0.1 == behind(taken, draft_statements(draft))
            &&& names.names_draft(result->Ok_0.0, draft)
        }),
{
    let context = statement_texts(draft.context@);
    let observed = context + seq![draft.observation@];
    let acted = observed + optional_list(draft.action);
    let all = acted + optional_list(draft.outcome);
    assert(context.push(draft.observation@) =~= observed);
    assert(draft_statements(draft) == all);
    lemma_split(names, symbols, taken, acted, optional_list(draft.outcome));
    lemma_split(names, symbols, taken, observed, optional_list(draft.action));
    lemma_split(names, symbols, taken, context, seq![draft.observation@]);
    assert forall|i: int| 0 <= i < context.len() implies (
    #[trigger] shape.context_term_counts@[i]) == context[i].1.len() by {
        assert(context[i] == draft.context@[i]@);
    }
    lemma_statements_resolve(names, symbols, taken, context, shape.context_term_counts@);
    assert(seq![draft.observation@][0].1.len() > 0);
    assert(draft.observation@.1.len() == draft.observation.terms@.len());
    lemma_statement_resolves(names, symbols, behind(taken, context), draft.observation@);
    lemma_optional_resolves(names, symbols, behind(taken, observed), draft.action);
    lemma_optional_resolves(names, symbols, behind(taken, acted), draft.outcome);
}

/// The number of terms of an action and of an outcome fits a machine word.
pub open spec fn fits_counts(draft: TextEpisodeDraft) -> bool {
    &&& draft.action matches Some(action) ==> action.terms@.len() <= usize::MAX
    &&& draft.outcome matches Some(outcome) ==> outcome.terms@.len() <= usize::MAX
}

/// Each shape is that of its draft.
pub open spec fn all_shaped(shapes: Seq<EpisodeShape>, drafts: Seq<TextEpisodeDraft>) -> bool {
    &&& shapes.len() == drafts.len()
    &&& forall|i: int| 0 <= i < drafts.len() ==> shapes_draft(#[trigger] shapes[i], drafts[i])
}

/// Every draft fits.
pub open spec fn all_fit(drafts: Seq<TextEpisodeDraft>) -> bool {
    forall|i: int| 0 <= i < drafts.len() ==> fits_counts(#[trigger] drafts[i])
}

proof fn lemma_drafts_resolve(
    names: Names,
    symbols: Symbols,
    shapes: Seq<EpisodeShape>,
    drafts: Seq<TextEpisodeDraft>,
)
    requires
        all_shaped(shapes, drafts),
        all_fit(drafts),
        names.names_statements(symbols, (0, 0), all_statements(drafts)),
        all_termed(all_statements(drafts)),
    ensures
        ({
            let result = next_drafts(symbols.predicates, symbols.terms, shapes);
            &&& result is Ok
            &&& result->Ok_0.1 == behind((0, 0), all_statements(drafts))
            &&& result->Ok_0.0.len() == drafts.len()
            &&& forall|i: int|
                0 <= i < drafts.len() ==> names.names_draft(
                    #[trigger] result->Ok_0.0[i],
                    drafts[i],
                )
        }),
    decreases drafts.len(),
{
    if drafts.len() > 0 {
        let rest = drafts.drop_last();
        let earlier = shapes.drop_last();
        let last = draft_statements(drafts.last());
        lemma_split(names, symbols, (0, 0), all_statements(rest), last);
        assert forall|i: int| 0 <= i < rest.len() implies shapes_draft(
            #[trigger] earlier[i],
            rest[i],
        ) by {
            assert(shapes_draft(shapes[i], drafts[i]));
        }
        assert forall|i: int| 0 <= i < rest.len() implies fits_counts(#[trigger] rest[i]) by {
            assert(fits_counts(drafts[i]));
        }
        lemma_drafts_resolve(names, symbols, earlier, rest);
        assert(shapes_draft(shapes[shapes.len() - 1], drafts[drafts.len() - 1]));
        assert(fits_counts(drafts[drafts.len() - 1]));
        lemma_draft_resolves(
            names,
            symbols,
            behind((0, 0), all_statements(rest)),
            shapes.last(),
            drafts.last(),
        );
        let before = next_drafts(symbols.predicates, symbols.terms, earlier)->Ok_0.0;
        let found = next_drafts(symbols.predicates, symbols.terms, shapes)->Ok_0.0;
        assert forall|i: int| 0 <= i < drafts.len() implies names.names_draft(
            #[trigger] found[i],
            drafts[i],
        ) by {
            if i < rest.len() {
                assert(found[i] == before[i]);
            }
        }
    }
}

/// Resolving the identifiers of flattened drafts gives each draft its own
/// statements back: where the identifiers name the flattened texts, the
/// resolved statements name the texts of the drafts, role by role.
pub proof fn law_flattened_statements_are_resolved(
    names: Names,
    symbols: Symbols,
    shapes: Seq<EpisodeShape>,
    drafts: Seq<TextEpisodeDraft>,
)
    requires
        all_shaped(shapes, drafts),
        all_fit(drafts),
        all_termed(all_statements(drafts)),
        symbols.predicates.map_values(|id: PredicateId| names.predicates[id.0]) == predicate_texts(
            all_statements(drafts),
        ),
        symbols.terms.map_values(|id: TermId| names.terms[id.0]) == term_texts(
            all_statements(drafts),
        ),
    ensures
        match next_drafts(symbols.predicates, symbols.terms, shapes) {
            Ok((found, taken)) => {
                &&& found.len() == drafts.len()
                &&& forall|i: int|
                    0 <= i < drafts.len() ==> names.names_draft(#[trigger] found[i], drafts[i])
                &&& taken == (symbols.predicates.len(), symbols.terms.len())
            },
            Err(_) => false,
        },
{
    let all = all_statements(drafts);
    let first = symbols.predicates.map_values(|id: PredicateId| names.predicates[id.0]);
    let second = symbols.terms.map_values(|id: TermId| names.terms[id.0]);
    assert(first.len() == symbols.predicates.len() && second.len() == symbols.terms.len());
    assert(predicate_texts(all).len() == all.len());
    assert forall|k: int| 0 <= k < all.len() implies names.predicates[(
    #[trigger] symbols.predicates[0 + k]).0] == all[k].0 by {
        assert(first[k] == predicate_texts(all)[k]);
    }
    assert forall|k: int| 0 <= k < term_texts(all).len() implies names.terms[(
    #[trigger] symbols.terms[0 + k]).0] == term_texts(all)[k] by {
        assert(second[k] == term_texts(all)[k]);
    }
    lemma_drafts_resolve(names, symbols, shapes, drafts);
}

} // verus!
