use heckel_diff::{anchor_lines, BlockReference, Diff, DiffError, Direction, Reference};
use heckel_diff::Reference::{Confirmed, Delete, Insert, Multiple, Unknown};

fn chars(text: &str) -> Vec<char> {
    text.chars().collect()
}

fn words(text: &str) -> Vec<&str> {
    text.split(' ').collect()
}

/// A diff on which only the symbol tables have been built.
fn blank<'a, T: Eq + std::hash::Hash + Clone>(old: &'a Vec<T>, new: &'a Vec<T>) -> Diff<'a, T> {
    Diff {
        symbol_table_old: Diff::create_symbol_table(old),
        symbol_table_new: Diff::create_symbol_table(new),
        old_mapping: vec![Unknown; old.len()],
        new_mapping: vec![Unknown; new.len()],
        old_file: old,
        new_file: new,
    }
}

fn concat_old() -> &'static str {
    "BEGIN a mass of latin words falls upon the relevant facts like soft snow , \
     covering up the details . END"
}

fn concat_new() -> &'static str {
    "BEGIN much writing is like snow , a mass of long words and phrases falls upon \
     the relevant facts covering up the details . END"
}

fn assert_symmetric(old_mapping: &Vec<Reference>, new_mapping: &Vec<Reference>) {
    for (i, entry) in old_mapping.iter().enumerate() {
        if let Confirmed(j) = *entry {
            assert_eq!(new_mapping[j], Confirmed(i));
        }
    }
    for (j, entry) in new_mapping.iter().enumerate() {
        if let Confirmed(i) = *entry {
            assert_eq!(old_mapping[i], Confirmed(j));
        }
    }
}

#[test]
fn pure_anchors_need_no_expansion() {
    let old = chars("XABY");
    let new = chars("XBAY");
    let diff = Diff::new(&old, &new);
    assert_eq!(diff.old_mapping, vec![Confirmed(0), Confirmed(2), Confirmed(1), Confirmed(3)]);
    assert_eq!(diff.new_mapping, vec![Confirmed(0), Confirmed(2), Confirmed(1), Confirmed(3)]);
    assert!(!diff.old_mapping.contains(&Delete));
    assert!(!diff.new_mapping.contains(&Insert));
}

#[test]
fn expansion_cascades_then_leaves_a_gap() {
    let old = chars("XAABY");
    let new = chars("XABAY");
    let diff = Diff::new(&old, &new);
    assert_eq!(
        diff.old_mapping,
        vec![Confirmed(0), Confirmed(1), Delete, Confirmed(2), Confirmed(4)]
    );
    assert_eq!(
        diff.new_mapping,
        vec![Confirmed(0), Confirmed(1), Confirmed(3), Insert, Confirmed(4)]
    );
}

#[test]
fn blocks_after_the_cascade() {
    let old = chars("XAABY");
    let new = chars("XABAY");
    let diff = Diff::new(&old, &new);
    assert_eq!(
        diff.aggregate(),
        Ok(vec![
            BlockReference::Match { new_line_begin: 1, count: 1 },
            BlockReference::Delete { old_line_begin: 2, count: 1 },
            BlockReference::Match { new_line_begin: 2, count: 1 },
        ])
    );
}

#[test]
fn anchors_alone_then_the_cascade() {
    let old = chars("XAABY");
    let new = chars("XABAY");
    let mut diff = blank(&old, &new);
    diff.update_unique_mappings();
    assert_eq!(diff.old_mapping, vec![Confirmed(0), Unknown, Unknown, Confirmed(2), Confirmed(4)]);
    assert_eq!(diff.new_mapping, vec![Confirmed(0), Unknown, Confirmed(3), Unknown, Confirmed(4)]);
    diff.update_neighbors();
    assert_eq!(
        diff.old_mapping,
        vec![Confirmed(0), Confirmed(1), Unknown, Confirmed(2), Confirmed(4)]
    );
    assert_eq!(
        diff.new_mapping,
        vec![Confirmed(0), Confirmed(1), Confirmed(3), Unknown, Confirmed(4)]
    );
}

#[test]
fn sentence_of_words() {
    let old = words(concat_old());
    let new = words(concat_new());
    let diff = Diff::new(&old, &new);
    let expected_old = vec![
        Confirmed(0), Confirmed(7), Confirmed(8), Confirmed(9), Delete, Confirmed(11),
        Confirmed(14), Confirmed(15), Confirmed(16), Confirmed(17), Confirmed(18), Confirmed(4),
        Delete, Confirmed(5), Confirmed(6), Confirmed(19), Confirmed(20), Confirmed(21),
        Confirmed(22), Confirmed(23), Confirmed(24),
    ];
    let expected_new = vec![
        Confirmed(0), Insert, Insert, Insert, Confirmed(11), Confirmed(13), Confirmed(14),
        Confirmed(1), Confirmed(2), Confirmed(3), Insert, Confirmed(5), Insert, Insert,
        Confirmed(6), Confirmed(7), Confirmed(8), Confirmed(9), Confirmed(10), Confirmed(15),
        Confirmed(16), Confirmed(17), Confirmed(18), Confirmed(19), Confirmed(20),
    ];
    assert_eq!(diff.old_mapping, expected_old);
    assert_eq!(diff.new_mapping, expected_new);
    assert_eq!(
        diff.aggregate(),
        Ok(vec![
            BlockReference::Match { new_line_begin: 7, count: 3 },
            BlockReference::Delete { old_line_begin: 4, count: 1 },
            BlockReference::Match { new_line_begin: 11, count: 7 },
            BlockReference::Delete { old_line_begin: 12, count: 1 },
            BlockReference::Match { new_line_begin: 5, count: 7 },
        ])
    );
}

#[test]
fn moved_runs_are_followed_in_both_directions() {
    let old = chars("SABCDEGT");
    let new = chars("SDEFGACT");
    let diff = Diff::new(&old, &new);
    assert_eq!(
        diff.old_mapping,
        vec![
            Confirmed(0), Confirmed(5), Delete, Confirmed(6), Confirmed(1), Confirmed(2),
            Confirmed(4), Confirmed(7),
        ]
    );
    assert_eq!(
        diff.new_mapping,
        vec![
            Confirmed(0), Confirmed(4), Confirmed(5), Insert, Confirmed(6), Confirmed(1),
            Confirmed(3), Confirmed(7),
        ]
    );
    assert_eq!(
        diff.aggregate(),
        Ok(vec![
            BlockReference::Match { new_line_begin: 5, count: 1 },
            BlockReference::Delete { old_line_begin: 2, count: 1 },
            BlockReference::Match { new_line_begin: 6, count: 4 },
        ])
    );
}

#[test]
fn correspondences_come_in_pairs_at_every_stage() {
    let old = words("BEGIN the quick brown fox jumps over the lazy dog END");
    let new = words("BEGIN the lazy dog jumps over the quick brown fox END");
    let mut diff = blank(&old, &new);
    assert_symmetric(&diff.old_mapping, &diff.new_mapping);
    diff.update_unique_mappings();
    assert_symmetric(&diff.old_mapping, &diff.new_mapping);
    diff.update_neighbors();
    assert_symmetric(&diff.old_mapping, &diff.new_mapping);
    diff.replace_unknown();
    assert_symmetric(&diff.old_mapping, &diff.new_mapping);
    for (i, entry) in diff.old_mapping.iter().enumerate() {
        if let Confirmed(j) = *entry {
            assert_eq!(old[i], new[j]);
        }
    }
}

#[test]
fn every_position_is_settled() {
    let old = words("BEGIN a b a c d a END");
    let new = words("BEGIN c a a x b a d END");
    let diff = Diff::new(&old, &new);
    assert_eq!(diff.old_mapping.len(), old.len());
    assert_eq!(diff.new_mapping.len(), new.len());
    for entry in diff.old_mapping.iter() {
        assert!(matches!(entry, Confirmed(_) | Delete));
    }
    for entry in diff.new_mapping.iter() {
        assert!(matches!(entry, Confirmed(_) | Insert));
    }
}

#[test]
fn same_input_gives_same_output() {
    let old = words("BEGIN a b a c d a e f g END");
    let new = words("BEGIN c a a x b a d g f e END");
    let first = Diff::new(&old, &new);
    let second = Diff::new(&old, &new);
    assert_eq!(first.old_mapping, second.old_mapping);
    assert_eq!(first.new_mapping, second.new_mapping);
    assert_eq!(first.aggregate(), second.aggregate());
    let mut one = first.get_unique_symbols();
    let mut two = second.get_unique_symbols();
    one.sort();
    two.sort();
    assert_eq!(one, two);
}

#[test]
fn equal_sequences_match_position_by_position() {
    let old = chars("XAABABY");
    let new = chars("XAABABY");
    let diff = Diff::new(&old, &new);
    let identity: Vec<Reference> = (0..old.len()).map(Confirmed).collect();
    assert_eq!(diff.old_mapping, identity);
    assert_eq!(diff.new_mapping, identity);
    assert_eq!(diff.aggregate(), Ok(vec![BlockReference::Match { new_line_begin: 1, count: 5 }]));
}

#[test]
fn equal_sequences_without_unique_ends_are_not_matched() {
    let old = chars("AA");
    let new = chars("AA");
    let diff = Diff::new(&old, &new);
    assert_eq!(diff.old_mapping, vec![Delete, Delete]);
    assert_eq!(diff.new_mapping, vec![Insert, Insert]);
}

#[test]
fn expanding_twice_changes_nothing() {
    let old = words("BEGIN a mass of latin words falls upon the relevant facts END");
    let new = words("BEGIN a mass of long words and phrases falls upon the relevant facts END");
    let mut diff = blank(&old, &new);
    diff.update_unique_mappings();
    diff.update_neighbors();
    let old_once = diff.old_mapping.clone();
    let new_once = diff.new_mapping.clone();
    assert!(old_once.contains(&Unknown));
    diff.update_neighbors();
    assert_eq!(diff.old_mapping, old_once);
    assert_eq!(diff.new_mapping, new_once);
}

#[test]
fn expansion_from_a_single_anchor_reaches_both_ends() {
    let old = chars("XAAMAAY");
    let new = chars("ZAAMAAW");
    let mut diff = blank(&old, &new);
    diff.update_unique_mappings();
    assert_eq!(
        diff.old_mapping,
        vec![Unknown, Unknown, Unknown, Confirmed(3), Unknown, Unknown, Unknown]
    );
    diff.update_neighbors();
    assert_eq!(
        diff.old_mapping,
        vec![Unknown, Confirmed(1), Confirmed(2), Confirmed(3), Confirmed(4), Confirmed(5), Unknown]
    );
    diff.replace_unknown();
    assert_eq!(
        diff.new_mapping,
        vec![Insert, Confirmed(1), Confirmed(2), Confirmed(3), Confirmed(4), Confirmed(5), Insert]
    );
}

#[test]
fn one_step_forward_and_backward() {
    let old = chars("XAMBY");
    let new = chars("QAMBR");
    let mut diff = blank(&old, &new);
    diff.update_unique_mappings();
    assert_eq!(diff.old_mapping, vec![Unknown, Confirmed(1), Confirmed(2), Confirmed(3), Unknown]);
    diff.old_mapping = vec![Unknown, Unknown, Confirmed(2), Unknown, Unknown];
    diff.new_mapping = vec![Unknown, Unknown, Confirmed(2), Unknown, Unknown];
    diff.update_neighbor(2, Direction::Forward);
    assert_eq!(diff.old_mapping, vec![Unknown, Unknown, Confirmed(2), Confirmed(3), Unknown]);
    assert_eq!(diff.new_mapping, vec![Unknown, Unknown, Confirmed(2), Confirmed(3), Unknown]);
    diff.update_neighbor(2, Direction::Backward);
    assert_eq!(diff.old_mapping, vec![Unknown, Confirmed(1), Confirmed(2), Confirmed(3), Unknown]);
    assert_eq!(diff.new_mapping, vec![Unknown, Confirmed(1), Confirmed(2), Confirmed(3), Unknown]);
    // The tokens next to position 3 differ, so nothing more is confirmed.
    diff.update_neighbor(3, Direction::Forward);
    assert_eq!(diff.old_mapping, vec![Unknown, Confirmed(1), Confirmed(2), Confirmed(3), Unknown]);
    // Position 0 is not confirmed, so it is not extended.
    diff.update_neighbor(0, Direction::Forward);
    assert_eq!(diff.old_mapping, vec![Unknown, Confirmed(1), Confirmed(2), Confirmed(3), Unknown]);
}

#[test]
fn a_step_stops_at_the_end_of_either_sequence() {
    let old = chars("AB");
    let new = chars("A");
    let mut diff = blank(&old, &new);
    diff.update_unique_mappings();
    assert_eq!(diff.old_mapping, vec![Confirmed(0), Unknown]);
    diff.update_neighbor(0, Direction::Forward);
    diff.update_neighbor(0, Direction::Backward);
    diff.update_neighbor(1, Direction::Backward);
    assert_eq!(diff.old_mapping, vec![Confirmed(0), Unknown]);
    assert_eq!(diff.new_mapping, vec![Confirmed(0)]);
}

#[test]
fn neighbor_positions() {
    assert_eq!(Direction::Forward.neighbor(0, 2), Some(1));
    assert_eq!(Direction::Forward.neighbor(1, 2), None);
    assert_eq!(Direction::Forward.neighbor(usize::MAX, usize::MAX), None);
    assert_eq!(Direction::Backward.neighbor(1, 2), Some(0));
    assert_eq!(Direction::Backward.neighbor(0, 2), None);
    assert_eq!(Direction::Backward.neighbor(5, 2), None);
    assert_eq!(Direction::Backward.neighbor(2, 2), Some(1));
}

#[test]
fn symbol_table_records_single_positions() {
    let file = words("a b a c b d");
    let table = Diff::create_symbol_table(&file);
    assert_eq!(table.len(), 4);
    assert_eq!(table.get("a"), Some(&Multiple));
    assert_eq!(table.get("b"), Some(&Multiple));
    assert_eq!(table.get("c"), Some(&Confirmed(3)));
    assert_eq!(table.get("d"), Some(&Confirmed(5)));
    assert_eq!(table.get("e"), None);
}

#[test]
fn symbol_table_keeps_multiple_after_a_third_occurrence() {
    let file: Vec<u64> = vec![7, 7, 7, 9];
    let table = Diff::create_symbol_table(&file);
    assert_eq!(table.get(&7), Some(&Multiple));
    assert_eq!(table.get(&9), Some(&Confirmed(3)));
    let empty: Vec<u64> = Vec::new();
    assert!(Diff::create_symbol_table(&empty).is_empty());
}

#[test]
fn unique_symbols_are_unique_on_both_sides() {
    let old = words("BEGIN a b c c d END");
    let new = words("BEGIN d d b a x END");
    let diff = Diff::new(&old, &new);
    let mut symbols = diff.get_unique_symbols();
    symbols.sort();
    assert_eq!(symbols, vec!["BEGIN", "END", "a", "b"]);
}

#[test]
fn anchor_lines_reads_back_both_positions() {
    assert_eq!(
        anchor_lines(Some(&Confirmed(3)), Some(&Confirmed(8))),
        Ok((3, 8))
    );
}

#[test]
fn anchor_lines_reports_a_missing_position() {
    let violation = Err(DiffError::AnchorConsistencyViolation);
    assert_eq!(anchor_lines(Some(&Multiple), Some(&Confirmed(8))), violation);
    assert_eq!(anchor_lines(Some(&Confirmed(3)), Some(&Multiple)), violation);
    assert_eq!(anchor_lines(None, Some(&Confirmed(8))), violation);
    assert_eq!(anchor_lines(Some(&Confirmed(3)), None), violation);
    assert_eq!(anchor_lines(Some(&Unknown), Some(&Delete)), violation);
}

#[test]
fn replace_unknown_touches_nothing_else() {
    let old = chars("XAY");
    let new = chars("XBY");
    let mut diff = blank(&old, &new);
    diff.old_mapping = vec![Unknown, Confirmed(1), Multiple];
    diff.new_mapping = vec![Delete, Unknown, Insert];
    diff.replace_unknown();
    assert_eq!(diff.old_mapping, vec![Delete, Confirmed(1), Multiple]);
    assert_eq!(diff.new_mapping, vec![Delete, Insert, Insert]);
}

#[test]
fn aggregate_reports_an_unsettled_entry() {
    let old = chars("XAABY");
    let new = chars("XABAY");
    let mut diff = blank(&old, &new);
    diff.update_unique_mappings();
    assert_eq!(diff.aggregate(), Err(DiffError::AggregationStateViolation));
    let mut settled = Diff::new(&old, &new);
    settled.old_mapping[2] = Insert;
    assert_eq!(settled.aggregate(), Err(DiffError::AggregationStateViolation));
    settled.old_mapping[2] = Multiple;
    assert_eq!(settled.aggregate(), Err(DiffError::AggregationStateViolation));
}

#[test]
fn aggregate_leaves_out_the_first_and_the_last_position() {
    let old = chars("XAY");
    let new = chars("XAY");
    let mut diff = Diff::new(&old, &new);
    diff.old_mapping[0] = Unknown;
    diff.old_mapping[2] = Insert;
    assert_eq!(diff.aggregate(), Ok(vec![BlockReference::Match { new_line_begin: 1, count: 1 }]));
}

#[test]
fn short_sequences_have_no_blocks() {
    let empty: Vec<char> = Vec::new();
    let one = chars("X");
    let two = chars("XY");
    let diff = Diff::new(&empty, &empty);
    assert_eq!(diff.old_mapping, vec![]);
    assert_eq!(diff.new_mapping, vec![]);
    assert_eq!(diff.aggregate(), Ok(vec![]));
    let diff = Diff::new(&one, &two);
    assert_eq!(diff.old_mapping, vec![Confirmed(0)]);
    assert_eq!(diff.new_mapping, vec![Confirmed(0), Insert]);
    assert_eq!(diff.aggregate(), Ok(vec![]));
    let diff = Diff::new(&two, &one);
    assert_eq!(diff.old_mapping, vec![Confirmed(0), Delete]);
    assert_eq!(diff.new_mapping, vec![Confirmed(0)]);
    assert_eq!(diff.aggregate(), Ok(vec![]));
    let diff = Diff::new(&two, &two);
    assert_eq!(diff.old_mapping, vec![Confirmed(0), Confirmed(1)]);
    assert_eq!(diff.aggregate(), Ok(vec![]));
}

#[test]
fn runs_of_deletions_are_one_block() {
    let old = chars("XABCY");
    let new = chars("XQY");
    let diff = Diff::new(&old, &new);
    assert_eq!(diff.old_mapping, vec![Confirmed(0), Delete, Delete, Delete, Confirmed(2)]);
    assert_eq!(diff.new_mapping, vec![Confirmed(0), Insert, Confirmed(4)]);
    assert_eq!(diff.aggregate(), Ok(vec![BlockReference::Delete { old_line_begin: 1, count: 3 }]));
    let back = Diff::new(&new, &old);
    assert_eq!(back.old_mapping, vec![Confirmed(0), Delete, Confirmed(4)]);
    assert_eq!(back.new_mapping, vec![Confirmed(0), Insert, Insert, Insert, Confirmed(2)]);
    assert_eq!(back.aggregate(), Ok(vec![BlockReference::Delete { old_line_begin: 1, count: 1 }]));
}

#[test]
fn owned_strings_are_tokens() {
    let old: Vec<String> = words("BEGIN one two END").into_iter().map(String::from).collect();
    let new: Vec<String> = words("BEGIN two one END").into_iter().map(String::from).collect();
    let diff = Diff::new(&old, &new);
    assert_eq!(diff.old_mapping, vec![Confirmed(0), Confirmed(2), Confirmed(1), Confirmed(3)]);
    assert_eq!(diff.aggregate(), Ok(vec![BlockReference::Match { new_line_begin: 2, count: 2 }]));
}

#[test]
fn blocks_stand_for_each_inner_position_once() {
    let old = words(concat_old());
    let new = words(concat_new());
    let diff = Diff::new(&old, &new);
    let blocks = diff.aggregate().unwrap();
    let mut line = 1;
    let mut previous_is_match = None;
    for block in blocks.iter() {
        match *block {
            BlockReference::Match { new_line_begin, count } => {
                assert!(count >= 1);
                assert_eq!(diff.old_mapping[line], Confirmed(new_line_begin));
                for entry in diff.old_mapping[line..line + count].iter() {
                    assert!(matches!(entry, Confirmed(_)));
                }
                assert_ne!(previous_is_match, Some(true));
                previous_is_match = Some(true);
                line += count;
            }
            BlockReference::Delete { old_line_begin, count } => {
                assert!(count >= 1);
                assert_eq!(old_line_begin, line);
                for entry in diff.old_mapping[line..line + count].iter() {
                    assert_eq!(*entry, Delete);
                }
                assert_ne!(previous_is_match, Some(false));
                previous_is_match = Some(false);
                line += count;
            }
        }
    }
    assert_eq!(line, old.len() - 1);
}

#[test]
fn integers_are_tokens() {
    let old: Vec<u64> = vec![0, 10, 20, 20, 30, 99];
    let new: Vec<u64> = vec![0, 20, 30, 20, 10, 99];
    let diff = Diff::new(&old, &new);
    assert_eq!(
        diff.old_mapping,
        vec![Confirmed(0), Confirmed(4), Delete, Confirmed(1), Confirmed(2), Confirmed(5)]
    );
    assert_eq!(
        diff.new_mapping,
        vec![Confirmed(0), Confirmed(3), Confirmed(4), Insert, Confirmed(1), Confirmed(5)]
    );
    assert_eq!(
        diff.aggregate(),
        Ok(vec![
            BlockReference::Match { new_line_begin: 4, count: 1 },
            BlockReference::Delete { old_line_begin: 2, count: 1 },
            BlockReference::Match { new_line_begin: 1, count: 2 },
        ])
    );
}
