//! Cue postings and their merge.

use nao_m_e::attribute::{Attribute, EpisodeAtom, EpisodeDraft};
use nao_m_e::memory::posting::PostingMerge;
use nao_m_e::memory::Memory;
use nao_m_e::model::{AtomId, MemoryId, SymbolId, TimestampMs};

#[test]
fn posting_merge_aggregates_sorted_streams_once() {
    let first = [1, 3, 5];
    let second = [1, 2, 3, 5];
    let third = [2, 3, 4];
    let source_last = [0, 3];
    let source_only = [3];

    let mut merge = PostingMerge::new(
        vec![
            &first[..],
            &second[..],
            &third[..],
            &source_last[..],
            &source_only[..],
        ],
        3,
    );
    let mut merged = Vec::new();
    while let Some(entry) = merge.next() {
        merged.push(entry);
    }
    assert_eq!(merged, [(0, 1), (1, 2), (2, 2), (4, 1), (5, 2)]);
    assert_eq!(merge.next(), None);
}

fn attribute(key: u64, values: &[u64]) -> Attribute {
    Attribute::new(
        SymbolId::new(key),
        values.iter().copied().map(SymbolId::new).collect(),
    )
    .expect("test attribute is valid")
}

fn insert(memory: &mut Memory<EpisodeAtom>, timestamp: i64, attributes: Vec<Attribute>) -> AtomId {
    let draft = EpisodeDraft::new(TimestampMs::new(timestamp), attributes).expect("valid episode");
    memory.insert_episode(draft).expect("episode inserts")
}

fn hits(memory: &Memory<EpisodeAtom>, source: AtomId, limit: usize) -> Vec<(u64, u32)> {
    memory
        .recall_from(source, limit)
        .expect("source is known")
        .iter()
        .map(|hit| (hit.atom_id.sequence(), hit.activation.as_ppm()))
        .collect()
}

#[test]
fn attribute_recall_learns_from_feedback() {
    let memory_id = MemoryId::new(0x7b4f_6be0_32c2_4be8_96b8_7394_f734_85af).unwrap();
    let mut memory: Memory<EpisodeAtom> = Memory::new(memory_id);
    let source = insert(&mut memory, 1_000, vec![attribute(1, &[10, 11])]);
    let target = insert(&mut memory, 1_000, vec![attribute(1, &[10, 11])]);

    assert_eq!(hits(&memory, source, 1), [(target.sequence(), 400_000)]);
    memory.apply_feedback(source, &[target], true).unwrap();
    assert_eq!(hits(&memory, source, 1), [(target.sequence(), 471_875)]);
    assert_eq!(hits(&memory, target, 1), [(source.sequence(), 400_000)]);
}

#[test]
fn attributes_are_sets_of_bound_pairs() {
    let mut memory: Memory<EpisodeAtom> = Memory::new(MemoryId::new(1).unwrap());
    let source = insert(&mut memory, i64::MIN, vec![attribute(1, &[2, 3]), attribute(4, &[5])]);
    let merged = insert(
        &mut memory,
        i64::MAX,
        vec![attribute(4, &[5]), attribute(1, &[3]), attribute(1, &[2, 3])],
    );
    let swapped = insert(&mut memory, 0, vec![attribute(2, &[1]), attribute(5, &[4])]);
    let half = insert(&mut memory, 0, vec![attribute(4, &[5, 6])]);

    assert_eq!(
        memory.episode(merged).unwrap().attributes(),
        memory.episode(source).unwrap().attributes()
    );
    let found = hits(&memory, source, usize::MAX);
    assert_eq!(found[0], (merged.sequence(), 400_000));
    assert!(found.iter().all(|hit| hit.0 != swapped.sequence()));
    assert!(found.iter().any(|hit| hit.0 == half.sequence()));
    assert_eq!(hits(&memory, source, 1), found[..1]);
    assert_eq!(memory.episode(merged).unwrap().timestamp(), TimestampMs::new(i64::MAX));
}

#[test]
fn equal_replays_recall_alike() {
    let replay = || {
        let mut memory: Memory<EpisodeAtom> = Memory::new(MemoryId::new(9).unwrap());
        for key in 0..5 {
            insert(&mut memory, key, vec![attribute(1, &[2, key as u64 % 2])]);
        }
        let source = AtomId::from_parts(memory.memory_id(), 0);
        let target = AtomId::from_parts(memory.memory_id(), 3);
        memory.apply_feedback(source, &[target], true).unwrap();
        memory
    };
    let (first, second) = (replay(), replay());
    let source = AtomId::from_parts(first.memory_id(), 0);
    assert_eq!(hits(&first, source, 9), hits(&second, source, 9));
    assert_eq!(first.episodes(), second.episodes());
}
