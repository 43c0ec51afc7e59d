use aadc::{
    analyze_line, classify_line, correct_block, correct_lines, find_diagram_blocks, visual_width,
    Config, DiagramBlock, Revision,
};

fn strings(v: &[&str]) -> Vec<String> {
    v.iter().map(|s| s.to_string()).collect()
}

fn spans(blocks: &[DiagramBlock]) -> Vec<(usize, usize, u64)> {
    blocks.iter().map(|b| (b.start, b.end, b.confidence)).collect()
}

fn default_config() -> Config {
    Config { max_iters: 10, min_score: 50, tab_width: 4, all_blocks: false, verbose: false }
}

#[test]
fn test_find_diagram_blocks() {
    let lines: Vec<String> = vec![
        "Some text".to_string(),
        "+---+".to_string(),
        "| x |".to_string(),
        "+---+".to_string(),
        "More text".to_string(),
    ];

    let blocks = find_diagram_blocks(&lines, false);
    assert_eq!(blocks.len(), 1);
    assert_eq!(blocks[0].start, 1);
    assert_eq!(blocks[0].end, 4);
}

#[test]
fn block_confidence_values() {
    let boxed = strings(&["+---+", "| x |", "+---+"]);
    assert_eq!(find_diagram_blocks(&boxed, false)[0].confidence, 100);
    let single = strings(&["+---+"]);
    let b = find_diagram_blocks(&single, false);
    assert_eq!(spans(&b), vec![(0, 1, 90)]);
    let mixed = strings(&["+---+", "a - bcd"]);
    assert_eq!(find_diagram_blocks(&mixed, false)[0].confidence, 60);
}

#[test]
fn block_line_counts_and_rounded_percent() {
    let lines = strings(&["+---+", "a - bcd", "e - fgh"]);
    let b = &find_diagram_blocks(&lines, false)[0];
    assert_eq!((b.strong_lines, b.weak_lines), (1, 2));
    // 80 / 3 + 20 is 46.67: rounded down when held, to the nearest when shown
    assert_eq!(b.confidence, 46);
    assert_eq!(b.confidence_percent(), 47);
    let boxed = strings(&["+---+", "| x |", "+---+"]);
    assert_eq!(find_diagram_blocks(&boxed, false)[0].confidence_percent(), 100);
    let weak = strings(&["a - bcd"]);
    assert_eq!(find_diagram_blocks(&weak, true)[0].confidence_percent(), 10);
}

#[test]
fn weak_only_block_is_dropped_by_default() {
    let lines = strings(&["text", "a - bcd", "e - fgh", "text"]);
    assert!(find_diagram_blocks(&lines, false).is_empty());
    let all = find_diagram_blocks(&lines, true);
    assert_eq!(spans(&all), vec![(1, 3, 20)]);
}

#[test]
fn blank_gaps_in_blocks() {
    let one_gap = strings(&["+--+", "", "+--+"]);
    assert_eq!(
        spans(&find_diagram_blocks(&one_gap, false)),
        vec![(0, 3, 100)]
    );
    let two_gaps = strings(&["+--+", "", "", "+--+"]);
    assert_eq!(
        spans(&find_diagram_blocks(&two_gaps, false)),
        vec![
            (0, 1, 90),
            (3, 4, 90),
        ]
    );
    let trailing = strings(&["+--+", "|  |", "", "text"]);
    assert_eq!(
        spans(&find_diagram_blocks(&trailing, false)),
        vec![(0, 2, 100)]
    );
}

#[test]
fn plain_lines_inside_blocks() {
    let inner = strings(&["| a |", "text", "| b |"]);
    assert_eq!(find_diagram_blocks(&inner, false)[0].end, 3);
    // the three lines after a plain line are looked at, not the line itself
    let far = strings(&["| a |", "t1", "t2", "t3", "| b |"]);
    assert_eq!(
        spans(&find_diagram_blocks(&far, false)),
        vec![(0, 5, 100)]
    );
    let too_far = strings(&["| a |", "t1", "t2", "t3", "t4", "| b |"]);
    let blocks = find_diagram_blocks(&too_far, false);
    assert_eq!(blocks.len(), 2);
    assert_eq!((blocks[0].start, blocks[0].end), (0, 1));
    assert_eq!((blocks[1].start, blocks[1].end), (5, 6));
    // after a blank line a plain line ends the block
    let after_blank = strings(&["| a |", "", "text", "| b |"]);
    let blocks = find_diagram_blocks(&after_blank, false);
    assert_eq!((blocks[0].start, blocks[0].end), (0, 1));
    assert_eq!((blocks[1].start, blocks[1].end), (3, 4));
}

#[test]
fn test_correction_simple() {
    let config = default_config();

    let lines = vec![
        "+------+".to_string(),
        "| short|".to_string(),
        "| longer |".to_string(),
        "+------+".to_string(),
    ];

    let (corrected, stats) = correct_lines(lines, &config);

    assert_eq!(stats.blocks_found, 1);

    let widths: Vec<usize> = corrected
        .iter()
        .filter(|l| classify_line(l).is_boxy())
        .map(|l| visual_width(l.trim_end()))
        .collect();

    if !widths.is_empty() {
        let first = widths[0];
        assert!(widths.iter().all(|&w| w == first || w >= first - 2));
    }
}

#[test]
fn correction_aligns_on_widest_border() {
    let lines = strings(&["+------+", "| short|", "| longer |", "+------+"]);
    let (corrected, stats) = correct_lines(lines, &default_config());
    assert_eq!(corrected, strings(&["+------  +", "| short  |", "| longer |", "+------  +"]));
    for l in &corrected {
        assert_eq!(visual_width(l), 10);
    }
    assert_eq!(stats.blocks_found, 1);
    assert_eq!(stats.blocks_modified, 1);
    assert_eq!(stats.total_revisions, 3);
    assert_eq!(stats.iterations, 0);
    assert_eq!(stats.outcomes[0].applied, vec![3]);
    assert!(stats.outcomes[0].converged);
    assert_eq!(stats.outcomes[0].revisions, 3);
}

#[test]
fn corrected_output_is_a_fixed_point() {
    let lines = strings(&["intro", "┌────┐", "│ a │", "│ bbbb  │", "└────┘", "outro"]);
    let (once, first) = correct_lines(lines, &default_config());
    assert!(first.total_revisions > 0);
    assert!(first.outcomes.iter().all(|o| o.converged));
    let (twice, second) = correct_lines(once.clone(), &default_config());
    assert_eq!(twice, once);
    assert_eq!(second.total_revisions, 0);
    assert_eq!(second.blocks_modified, 0);
}

#[test]
fn second_run_over_several_blocks_changes_nothing() {
    let lines = strings(&[
        "+---+", "| a|", "+---+", "", "", "prose", "", "┌──┐", "│ bb", "│ c │", "└──┘", "a - b |",
    ]);
    let (once, first) = correct_lines(lines, &default_config());
    assert!(first.outcomes.iter().all(|o| o.applied.len() < 10));
    let (twice, second) = correct_lines(once.clone(), &default_config());
    assert_eq!(twice, once);
    assert_eq!(second.total_revisions, 0);
    assert_eq!(second.blocks_modified, 0);
}

#[test]
fn missing_border_is_added() {
    let lines = strings(&["+----+", "| ab", "+----+"]);
    let (corrected, stats) = correct_lines(lines, &default_config());
    assert_eq!(corrected, strings(&["+----+", "| ab |", "+----+"]));
    assert_eq!(stats.total_revisions, 1);
}

#[test]
fn low_scores_are_not_applied() {
    let lines = strings(&["+----------+", "a - b |"]);
    let (corrected, stats) = correct_lines(lines.clone(), &default_config());
    assert_eq!(corrected, lines);
    assert_eq!(stats.blocks_found, 1);
    assert_eq!(stats.total_revisions, 0);
    assert_eq!(stats.blocks_modified, 0);
    assert!(stats.outcomes[0].converged);
    let lenient = Config { min_score: 30, ..default_config() };
    let (corrected, _) = correct_lines(lines, &lenient);
    assert_eq!(corrected, strings(&["+----------+", "a - b      |"]));
}

#[test]
fn strong_line_far_from_target_is_padded() {
    let lines = strings(&["+----------+", "|x|"]);
    let (corrected, _) = correct_lines(lines, &default_config());
    assert_eq!(corrected, strings(&["+----------+", "|x         |"]));
}

#[test]
fn no_iterations_changes_nothing() {
    let lines = strings(&["+------+", "| short|", "| longer |", "+------+"]);
    let config = Config { max_iters: 0, ..default_config() };
    let (corrected, stats) = correct_lines(lines.clone(), &config);
    assert_eq!(corrected, lines);
    assert_eq!(stats.blocks_found, 1);
    assert_eq!(stats.total_revisions, 0);
    assert!(!stats.outcomes[0].converged);
}

#[test]
fn tabs_are_expanded_everywhere() {
    let lines = strings(&["a\tb", "+--+\t|"]);
    let (corrected, _) = correct_lines(lines, &default_config());
    assert_eq!(corrected[0], "a   b");
    assert!(!corrected[1].contains('\t'));
}

#[test]
fn correct_block_leaves_other_lines() {
    let mut lines = strings(&["| a|", "x", "+---+", "| b|", "+---+"]);
    let block = DiagramBlock { start: 2, end: 5, confidence: 100, strong_lines: 3, weak_lines: 0 };
    let out = correct_block(&mut lines, &block, &default_config());
    assert_eq!(lines, strings(&["| a|", "x", "+---+", "| b |", "+---+"]));
    assert_eq!(out.revisions, 1);
    assert_eq!(out.applied, vec![1]);
    assert!(out.converged);
}

#[test]
fn revision_scores() {
    let analyzed = vec![analyze_line("+-----+"), analyze_line("| x|"), analyze_line("| ab")];
    let pad = Revision::PadBeforeSuffixBorder { line_idx: 11, spaces_to_add: 3, target_column: 6 };
    assert_eq!(pad.score(&analyzed, 10), 70);
    let far = Revision::PadBeforeSuffixBorder { line_idx: 11, spaces_to_add: 7, target_column: 6 };
    assert_eq!(far.score(&analyzed, 10), 50);
    let add = Revision::AddSuffixBorder { line_idx: 12, border_char: '|', target_column: 6 };
    assert_eq!(add.score(&analyzed, 10), 60);
    let add_strong = Revision::AddSuffixBorder { line_idx: 10, border_char: '|', target_column: 6 };
    assert_eq!(add_strong.score(&analyzed, 10), 70);
}

#[test]
fn revision_apply() {
    let mut lines = strings(&["keep", "| x|  ", "| ab", "plain"]);
    Revision::PadBeforeSuffixBorder { line_idx: 1, spaces_to_add: 2, target_column: 5 }
        .apply(&mut lines);
    Revision::AddSuffixBorder { line_idx: 2, border_char: '│', target_column: 6 }.apply(&mut lines);
    Revision::PadBeforeSuffixBorder { line_idx: 3, spaces_to_add: 2, target_column: 5 }
        .apply(&mut lines);
    assert_eq!(lines, strings(&["keep", "| x  |", "| ab  │", "plain"]));
    // a border is added right after a line already past the target column
    let mut wide = strings(&["| abcdef  "]);
    Revision::AddSuffixBorder { line_idx: 0, border_char: '|', target_column: 3 }.apply(&mut wide);
    assert_eq!(wide, strings(&["| abcdef|"]));
}
