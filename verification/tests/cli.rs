//! Arguments, input rows and reports of the command-line interface.

use nao_m_e::attribute::EpisodeAtom;
use nao_m_e::cli::args::{parse_args, parse_sequence_list, Command, Page, ROOT_HELP};
use nao_m_e::cli::attributes::{
    clock_timestamp, flatten_drafts, needs_timestamp, resolve_drafts, TextAttribute,
    TextEpisodeDraft,
};
use nao_m_e::cli::number::{parse_i64, parse_u64, parse_usize, Token};
use nao_m_e::cli::report::{
    format_recall, format_sequences, recall_symbols, recalled, resolve_symbols, ReportSymbols,
};
use nao_m_e::cli::rows::{parse_line, parse_lines, parse_row, require_drafts};
use nao_m_e::cli::statement_add::{extract_quiet, parse_add_options};
use nao_m_e::cli::statement_report;
use nao_m_e::cli::statements;
use nao_m_e::memory::Memory;
use nao_m_e::model::{AtomId, MemoryId, PredicateId, SymbolId, TermId, TimestampMs};
use nao_m_e::statement;

fn tokens(words: &[&str]) -> Vec<Token> {
    words.iter().map(|word| Some(word.to_string())).collect()
}

fn parse(words: &[&str]) -> Result<Command, String> {
    parse_args(&tokens(words))
}

fn attribute(key: &str, values: &[&str]) -> TextAttribute {
    TextAttribute {
        key: key.to_owned(),
        values: values.iter().map(|value| value.to_string()).collect(),
    }
}

fn lines(text: &str) -> Vec<String> {
    text.lines().map(str::to_owned).collect()
}

/// A memory of attribute episodes and the texts of its symbols.
struct Catalog {
    memory: Memory<EpisodeAtom>,
    texts: Vec<String>,
}

impl Catalog {
    fn new() -> Self {
        Self {
            memory: Memory::new(MemoryId::new(7).unwrap()),
            texts: Vec::new(),
        }
    }

    fn add(&mut self, drafts: &[TextEpisodeDraft], default: i64) -> Vec<AtomId> {
        let (texts, shapes) = flatten_drafts(drafts, TimestampMs::new(default));
        let symbols: Vec<SymbolId> = texts
            .into_iter()
            .map(|text| {
                let position = match self.texts.iter().position(|known| *known == text) {
                    Some(position) => position,
                    None => {
                        self.texts.push(text);
                        self.texts.len() - 1
                    }
                };
                SymbolId::new(position as u64)
            })
            .collect();
        resolve_drafts(&shapes, &symbols)
            .unwrap()
            .into_iter()
            .map(|draft| self.memory.insert_episode(draft).unwrap())
            .collect()
    }

    fn add_rows(&mut self, input: &str) -> String {
        let drafts = parse_lines(&lines(input)).unwrap();
        require_drafts(&drafts).unwrap();
        let ids = self.add(&drafts, 0);
        format_sequences(&ids)
    }

    fn recall(&self, source: u64, limit: usize) -> String {
        let source = AtomId::from_parts(self.memory.memory_id(), source);
        let hits = self.memory.recall_from(source, limit).unwrap();
        let episodes = recalled(&self.memory, &hits).expect("hits are stored");
        let ids = recall_symbols(&episodes);
        let values = ids
            .iter()
            .map(|id| self.texts.get(id.get() as usize).cloned())
            .collect();
        let symbols = resolve_symbols(ids, values, "symbol", "symbol").unwrap();
        format_recall(&episodes, &symbols).unwrap()
    }
}

#[test]
fn help_version_and_top_level_syntax_have_stable_exit_categories() {
    for (arguments, page) in [
        (&["--help"][..], Page::Root),
        (&["-h"][..], Page::Root),
        (&["init", "--help"][..], Page::Init),
        (&["check", "--help"][..], Page::Check),
        (&["add", "--help"][..], Page::Add),
        (&["recall", "--help"][..], Page::Recall),
        (&["feedback", "--help"][..], Page::Feedback),
    ] {
        assert_eq!(parse(arguments), Ok(Command::Print(page)));
        assert!(page.text().contains("Usage:"));
        assert!(!page.text().contains("JSON"));
    }

    let recall_help = Page::Recall.text();
    assert!(recall_help.contains("Symbolic cue overlap provides cold candidates"));
    assert!(recall_help.contains("Direct learned feedback"));
    assert!(recall_help.contains("suppress structural matches"));

    assert_eq!(parse(&["--version"]), Ok(Command::Print(Page::Version)));
    assert!(Page::Version.text().starts_with("nao-m-e 0.0.1"));
    assert_eq!(Page::Root.text(), ROOT_HELP);

    assert!(parse(&[]).unwrap_err().contains("command"));
    assert_eq!(
        parse(&["unknown"]),
        Err("unknown command or option `unknown`".to_owned())
    );
}

#[test]
fn commands_are_parsed_from_direct_arguments() {
    assert_eq!(parse(&["init", "db"]), Ok(Command::Init));
    assert_eq!(parse(&["check", "db"]), Ok(Command::Check));
    assert_eq!(
        parse(&[
            "add", "db", "--quiet", "--timestamp", "-7", "--attribute", "topic", "--value", "a",
            "--value", "b",
        ]),
        Ok(Command::Add {
            draft: TextEpisodeDraft {
                timestamp: Some(TimestampMs::new(-7)),
                attributes: vec![attribute("topic", &["a", "b"])],
            },
            quiet: true,
        })
    );
    assert_eq!(
        parse(&["add", "db", "--many", "--quiet"]),
        Ok(Command::AddMany { quiet: true })
    );
    assert_eq!(
        parse(&["recall", "db", "--query", "open incident"]),
        Ok(Command::Recall {
            query: "open incident".to_owned(),
            limit: 10,
        })
    );
    assert_eq!(
        parse(&["recall", "db", "--from", "3", "--limit", "0"]),
        Ok(Command::RecallFrom {
            source_sequence: 3,
            limit: 0,
        })
    );
    assert_eq!(
        parse(&["feedback", "db", "--from", "0", "--unhelpful", "1,2"]),
        Ok(Command::Feedback {
            source_sequence: 0,
            target_sequences: vec![1, 2],
            helpful: false,
        })
    );
}

#[test]
fn malformed_direct_arguments_are_syntax_errors_but_store_errors_are_runtime_errors() {
    for arguments in [
        &["add", "db"][..],
        &["recall", "db", "--limit", "1"][..],
        &[
            "feedback",
            "db",
            "--from",
            "0",
            "--helpful",
            "1",
            "--unhelpful",
            "1",
        ][..],
        &["add", "db", "--many", "--attribute", "a"][..],
        &["init"][..],
        &["check", "a", "b"][..],
        &["recall"][..],
    ] {
        assert!(parse(arguments).is_err(), "accepted {arguments:?}");
    }

    assert!(parse_add_options(&tokens(&[
        "--occurred",
        "1",
        "--recorded",
        "2",
        "--source",
        "3",
        "--predicate",
        "4",
        "--terms",
        "1,",
    ]))
    .is_err());

    for episode_options in [
        &[
            "--predicate",
            "observation",
            "--context",
            "context",
            "--term",
            "late observation term",
            "--context-term",
            "context term",
        ][..],
        &[
            "--predicate",
            "observation",
            "--term",
            "observation term",
            "--context",
            "context",
            "--context-term",
            "context term",
            "--term",
            "late observation term",
        ][..],
        &[
            "--predicate",
            "observation",
            "--term",
            "observation term",
            "--action",
            "action",
            "--action-term",
            "action term",
            "--outcome",
            "outcome",
            "--outcome-term",
            "outcome term",
            "--action-term",
            "late action term",
        ][..],
    ] {
        let mut words = vec!["--occurred", "1", "--recorded", "2", "--source", "3"];
        words.extend(episode_options);
        assert!(parse_add_options(&tokens(&words)).is_err());
    }

    let memory: Memory<EpisodeAtom> = Memory::new(MemoryId::new(1).unwrap());
    let absent = AtomId::from_parts(memory.memory_id(), 99);
    assert!(memory
        .recall_from(absent, 10)
        .unwrap_err()
        .to_string()
        .contains("unknown atom"));
}

#[test]
fn removed_episode_role_and_metadata_flags_are_syntax_errors() {
    for obsolete in [
        "--occurred",
        "--recorded",
        "--source",
        "--predicate",
        "--term",
        "--context",
        "--action",
        "--outcome",
    ] {
        assert!(parse(&["add", "db", obsolete, "value"]).is_err());
    }
}

#[test]
fn attribute_flags_report_what_is_wrong() {
    for (flags, expected) in [
        (&[][..], "episode requires at least one `--attribute`"),
        (&["--attribute"][..], "`--attribute` requires a value"),
        (
            &["--attribute", "a"][..],
            "attribute requires at least one `--value` value",
        ),
        (
            &["--attribute", "a", "--attribute", "b"][..],
            "attribute requires at least one `--value` value",
        ),
        (
            &["--value", "a"][..],
            "`--value` must immediately follow its attribute and values",
        ),
        (
            &["--attribute", "a", "--value", "b", "--timestamp", "1", "--value", "c"][..],
            "`--value` must immediately follow its attribute and values",
        ),
        (&["--timestamp", "x"][..], "invalid Unix timestamp"),
        (
            &["--timestamp", "1", "--timestamp", "2"][..],
            "`--timestamp` may be specified only once",
        ),
        (&["--quiet", "--quiet"][..], "`--quiet` may be specified only once"),
        (&["--other", "x"][..], "unknown episode option `--other`"),
    ] {
        let mut words = vec!["add", "db"];
        words.extend(flags);
        assert_eq!(parse(&words), Err(expected.to_owned()));
    }
    assert!(parse_args(&[None]).is_err());
    let mut invalid = tokens(&["add", "db", "--attribute"]);
    invalid.push(None);
    assert_eq!(
        parse_args(&invalid),
        Err("attribute key must be valid UTF-8".to_owned())
    );
}

#[test]
fn numbers_are_plain_decimals() {
    assert_eq!(parse_u64("0"), Some(0));
    assert_eq!(parse_u64("+7"), Some(7));
    assert_eq!(parse_u64("18446744073709551615"), Some(u64::MAX));
    assert_eq!(parse_u64("18446744073709551616"), None);
    for text in ["", "+", "-1", " 1", "1 ", "1_0", "٣"] {
        assert_eq!(parse_u64(text), None, "accepted {text:?}");
        assert_eq!(text.parse::<u64>().ok(), None);
    }
    assert_eq!(parse_i64("-9223372036854775808"), Some(i64::MIN));
    assert_eq!(parse_i64("9223372036854775808"), None);
    assert_eq!(parse_i64("-0"), Some(0));
    assert_eq!(parse_i64("-"), None);
    assert_eq!(parse_usize("10"), Some(10));
}

#[test]
fn feedback_targets_are_comma_separated() {
    let list = |text: &str| parse_sequence_list(&Some(text.to_owned()));
    assert_eq!(list("1"), Ok(vec![1]));
    assert_eq!(list("3,1,3"), Ok(vec![3, 1, 3]));
    assert_eq!(list(""), Err("feedback targets must not be empty".to_owned()));
    assert!(list("1,").unwrap_err().contains("index 1"));
    assert!(list("1,x,2").unwrap_err().contains("index 1"));
    assert!(parse_sequence_list(&None).is_err());
}

#[test]
fn add_many_parses_every_row_before_opening_or_encoding() {
    let error = parse_lines(&lines(
        "--timestamp 1 --attribute project --value lamentis\n\
         --timestamp 2 --attribute broken --value\n",
    ))
    .unwrap_err();
    assert!(error.contains("`--value` requires a value"));
    assert!(error.contains("line 2"));

    let error = parse_lines(&lines("--timestamp 1 --attribute 'unterminated --value value\n"))
        .unwrap_err();
    assert!(error.contains("invalid shell quoting"));

    let drafts = parse_lines(&lines(
        "# a comment\n\n--attribute 'build status' --value \"a b\"\n",
    ))
    .unwrap();
    assert_eq!(
        drafts,
        [TextEpisodeDraft {
            timestamp: None,
            attributes: vec![attribute("build status", &["a b"])],
        }]
    );
    assert!(parse_line(3, "--quiet --attribute a --value b").is_err());
    assert_eq!(parse_row(1, Some(Vec::new())), Ok(None));
    assert!(parse_row(1, None).unwrap_err().contains("invalid shell quoting"));
    assert!(require_drafts(&[]).is_err());
}

#[test]
fn missing_timestamps_share_one_default() {
    let drafts = parse_lines(&lines(
        "--attribute a --value b\n--timestamp 5 --attribute a --value b\n",
    ))
    .unwrap();
    assert!(needs_timestamp(&drafts));
    assert!(!needs_timestamp(&drafts[1..]));
    let mut catalog = Catalog::new();
    catalog.add(&drafts, 42);
    let times: Vec<i64> = catalog
        .memory
        .episodes()
        .iter()
        .map(|atom| atom.timestamp().get())
        .collect();
    assert_eq!(times, [42, 5]);
    assert_eq!(clock_timestamp(1_785_596_400_000), Ok(TimestampMs::new(1_785_596_400_000)));
    assert!(clock_timestamp(u128::from(u64::MAX)).is_err());
}

fn minimal_recall_block(sequence: u64, activation_ppm: u32) -> String {
    format!(
        "sequence {sequence}\nactivation_ppm {activation_ppm}\ntimestamp {sequence}\nattribute attribute-{sequence}\nvalue value-{sequence}"
    )
}

#[test]
fn recall_emits_exact_ranked_blocks_and_honors_limit() {
    let mut catalog = Catalog::new();
    let mut input = String::from(
        "--timestamp 0 --attribute attribute-0 --value value-0\n\
         --timestamp -7 --attribute context-b --value context-b-1 --value context-b-2 --attribute context-a --value context-a-1 --attribute context-a --value context-a-1 --attribute observation --value observation-1 --value observation-2 --attribute action --value action-1 --attribute outcome --value outcome-1 --value outcome-2\n",
    );
    for seed in 2..=11 {
        input.push_str(&format!(
            "--timestamp {seed} --attribute attribute-{seed} --value value-{seed}\n"
        ));
    }
    assert_eq!(catalog.add_rows(&input), "0\n1\n2\n3\n4\n5\n6\n7\n8\n9\n10\n11\n");

    let memory_id = catalog.memory.memory_id();
    let source = AtomId::from_parts(memory_id, 0);
    let rich = AtomId::from_parts(memory_id, 1);
    let targets = (2..=11)
        .map(|sequence| AtomId::from_parts(memory_id, sequence))
        .collect::<Vec<_>>();
    for _ in 0..16 {
        catalog.memory.apply_feedback(source, &[rich], true).unwrap();
    }
    for (&target, helpful_count) in targets.iter().zip([8, 8, 15, 14, 13, 12, 11, 10, 9, 7]) {
        for _ in 0..helpful_count {
            catalog.memory.apply_feedback(source, &[target], true).unwrap();
        }
    }

    let rich_block = "sequence 1\nactivation_ppm 400000\ntimestamp -7\nattribute context-b\nvalue context-b-1\nvalue context-b-2\nattribute context-a\nvalue context-a-1\nattribute observation\nvalue observation-1\nvalue observation-2\nattribute action\nvalue action-1\nattribute outcome\nvalue outcome-1\nvalue outcome-2";
    let mut blocks = vec![rich_block.to_owned()];
    blocks.extend(
        [
            (4, 392_045),
            (5, 383_333),
            (6, 373_750),
            (7, 363_157),
            (8, 351_388),
            (9, 338_235),
            (10, 323_437),
            (2, 306_666),
            (3, 306_666),
            (11, 287_500),
        ]
        .into_iter()
        .map(|(sequence, activation_ppm)| minimal_recall_block(sequence, activation_ppm)),
    );
    assert_eq!(blocks.len(), 11);

    let expected_default = blocks[..10].join("\n\n") + "\n";
    assert_eq!(catalog.recall(0, 10), expected_default);

    let expected_eleven = blocks.join("\n\n") + "\n";
    assert_eq!(catalog.recall(0, 11), expected_eleven);

    const UNIQUE_VALUE_COUNT: usize = 901;
    let mut wide_input = String::from(
        "--timestamp 12 --attribute batch-symbol --value shared-symbol\n\
         --timestamp 13 --attribute batch-symbol --value shared-symbol --value shared-symbol",
    );
    for index in 0..UNIQUE_VALUE_COUNT {
        wide_input.push_str(&format!(" --value unique-value-{index:04}"));
    }
    wide_input.push('\n');
    catalog.add_rows(&wide_input);

    let mut expected_wide = String::from(
        "sequence 13\nactivation_ppm 664\ntimestamp 13\nattribute batch-symbol\nvalue shared-symbol\n",
    );
    for index in 0..UNIQUE_VALUE_COUNT {
        expected_wide.push_str(&format!("value unique-value-{index:04}\n"));
    }
    assert_eq!(catalog.recall(12, 1), expected_wide);
}

#[test]
fn cold_recall_rebuilds_cue_candidates_without_feedback() {
    let mut catalog = Catalog::new();
    for (sequence, timestamp, attribute, values) in [
        (0, 1, "category", &["seven", "eight"][..]),
        (1, 3, "category", &["seven", "nine"][..]),
        (2, 5, "other", &["thirty"][..]),
    ] {
        let timestamp = timestamp.to_string();
        let mut words = vec!["add", "db", "--timestamp", &timestamp, "--attribute", attribute];
        for value in values {
            words.extend(["--value", value]);
        }
        match parse(&words).unwrap() {
            Command::Add { draft, quiet } => {
                assert!(!quiet);
                let ids = catalog.add(&[draft], 0);
                assert_eq!(format_sequences(&ids), format!("{sequence}\n"));
            }
            other => panic!("unexpected command {other:?}"),
        }
    }

    assert_eq!(
        catalog.recall(0, 10),
        "sequence 1\nactivation_ppm 171428\ntimestamp 3\nattribute category\nvalue seven\nvalue nine\n"
    );
    assert_eq!(catalog.memory.feedback_edges().len(), 0);
}

#[test]
fn recall_with_no_hits_is_silent_and_does_not_advance_the_store() {
    let mut catalog = Catalog::new();
    assert_eq!(
        catalog.add_rows(
            "--timestamp 1 --attribute attribute-1 --value value-1\n\
             --timestamp 2 --attribute attribute-2 --value value-2\n"
        ),
        "0\n1\n"
    );
    assert_eq!(catalog.recall(0, 10), "");
    assert_eq!(catalog.recall(0, 0), "");
}

#[test]
fn reports_need_the_text_of_every_symbol() {
    let ids = || vec![SymbolId::new(1), SymbolId::new(4)];
    let complete = resolve_symbols(
        ids(),
        vec![Some("one".to_owned()), Some("four".to_owned())],
        "symbol",
        "symbol",
    )
    .unwrap();
    assert_eq!(complete.get(4), Some("four"));
    assert_eq!(complete.get(2), None);
    assert_eq!(
        resolve_symbols(ids(), vec![Some("one".to_owned()), None], "symbol", "symbol")
            .map(|_| ())
            .unwrap_err(),
        "stored episode references unresolved symbol 4"
    );
    assert_eq!(
        resolve_symbols(ids(), vec![None], "symbol", "symbol")
            .map(|_| ())
            .unwrap_err(),
        "symbol lookup returned an incomplete result"
    );
}

const STATEMENT_FLAGS: [&str; 22] = [
    "--occurred",
    "-5",
    "--quiet",
    "--recorded",
    "6",
    "--source",
    "7",
    "--predicate",
    "sees",
    "--term",
    "a",
    "--term",
    "b",
    "--context",
    "in",
    "--context-term",
    "c",
    "--outcome",
    "ok",
    "--outcome-term",
    "d",
    "--unused",
];

fn statement(predicate: &str, terms: &[&str]) -> statements::TextStatement {
    statements::TextStatement {
        predicate: predicate.to_owned(),
        terms: terms.iter().map(|term| term.to_string()).collect(),
    }
}

#[test]
fn statement_flags_follow_their_statement() {
    let (draft, quiet) = parse_add_options(&tokens(&STATEMENT_FLAGS[..21])).unwrap();
    assert!(quiet);
    assert_eq!(draft.occurred_at.get(), -5);
    assert_eq!(draft.recorded_at.get(), 6);
    assert_eq!(draft.source.get(), 7);
    assert_eq!(draft.observation, statement("sees", &["a", "b"]));
    assert_eq!(draft.context, [statement("in", &["c"])]);
    assert_eq!(draft.action, None);
    assert_eq!(draft.outcome, Some(statement("ok", &["d"])));

    let (kept, quiet) = extract_quiet(&tokens(&["--term", "--quiet", "--quiet"])).unwrap();
    assert_eq!(kept, tokens(&["--term", "--quiet"]));
    assert!(quiet);
    assert_eq!(
        extract_quiet(&tokens(&["--quiet", "--quiet"])),
        Err("`--quiet` may be specified only once".to_owned())
    );
    let parse = |words: &[&str]| statements::parse_episode_flags(&tokens(words)).unwrap_err();
    assert_eq!(parse(&["--predicate"]), "`--predicate` requires a value");
    assert_eq!(
        parse(&["--predicate", "p", "--predicate", "q"]),
        "observation requires at least one `--term` value"
    );
    assert_eq!(
        parse(&["--term", "a"]),
        "`--term` must immediately follow its statement and terms"
    );
    assert_eq!(
        parse(&["--predicate", "p", "--action-term", "a"]),
        "`--action-term` cannot be used in an active observation statement; expected `--term`"
    );
    assert_eq!(parse(&[]), "episode requires `--occurred`");
    assert_eq!(parse(&["--unused", "x"]), "unknown episode option `--unused`");
}

#[test]
fn statement_drafts_are_flattened_resolved_and_reported() {
    let (draft, _) = parse_add_options(&tokens(&STATEMENT_FLAGS[..21])).unwrap();
    let (predicates, terms, shapes) = statements::flatten_drafts(&[draft]);
    assert_eq!(predicates, ["in", "sees", "ok"]);
    assert_eq!(terms, ["c", "a", "b", "d"]);
    let predicate_ids: Vec<PredicateId> = (0..3).map(PredicateId::new).collect();
    let term_ids: Vec<TermId> = (10..14).map(TermId::new).collect();
    let drafts = statements::resolve_drafts(&shapes, &predicate_ids, &term_ids).unwrap();
    assert!(statements::resolve_drafts(&shapes, &predicate_ids[..2], &term_ids).is_err());
    assert!(statements::resolve_drafts(&shapes, &predicate_ids, &term_ids[..3]).is_err());

    let mut memory: Memory<statement::EpisodeAtom> = Memory::new(MemoryId::new(7).unwrap());
    let mut ids = Vec::new();
    for draft in drafts {
        ids.push(memory.insert_episode(draft).unwrap());
    }
    let atom = memory.episode(ids[0]).unwrap();
    let episodes = [(atom, 9_u32), (atom, 8)];
    let (found_predicates, found_terms) = statement_report::recall_symbols(&episodes);
    assert_eq!(found_predicates.len(), 3);
    assert_eq!(found_terms.len(), 4);
    let symbols = |ids: Vec<SymbolId>, texts: &[&str]| -> ReportSymbols {
        let values = texts.iter().map(|text| Some(text.to_string())).collect();
        resolve_symbols(ids, values, "predicate symbol", "predicate").unwrap()
    };
    let predicate_texts = symbols(found_predicates, &["in", "sees", "ok"]);
    let term_texts = symbols(found_terms, &["c", "a", "b", "d"]);
    let block = |ppm: u32| {
        format!(
            "sequence 0\nactivation_ppm {ppm}\noccurred -5\nrecorded 6\nsource 7\ncontext in\ncontext-term c\npredicate sees\nterm a\nterm b\noutcome ok\noutcome-term d\n"
        )
    };
    assert_eq!(
        statement_report::format_recall(&episodes, &predicate_texts, &term_texts),
        Ok(format!("{}\n{}", block(9), block(8)))
    );
    let none = symbols(Vec::new(), &[]);
    assert_eq!(
        statement_report::format_recall(&episodes, &none, &term_texts),
        Err("stored episode references unresolved predicate symbol 0".to_owned())
    );
    assert_eq!(
        statement_report::format_recall(&episodes, &predicate_texts, &none),
        Err("stored episode references unresolved term symbol 10".to_owned())
    );
}
