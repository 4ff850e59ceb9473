//! Fixing documents.

use typedown::ast::{inlines_to_string, Block};
use typedown::diagnostic::Diagnostic;
use typedown::fix::{apply_fixes, Fix};
use typedown::parse::parse;
use typedown::serialize::serialize;

fn apply_and_serialize(input: &str, diagnostics: &[Diagnostic]) -> String {
    let mut doc = parse(input);
    apply_fixes(&mut doc, diagnostics);
    serialize(&doc)
}

// ── InsertH1 ──────────────────────────────────────────────────────────────

#[test]
fn test_insert_h1_prepends_heading() {
    let result = apply_and_serialize(
        "---\ntype: t\n---\nSome content.\n",
        &[Diagnostic::MissingH1 {
            expected: "My Title".to_string(),
        }],
    );
    assert!(result.contains("# My Title\n"), "got: {result}");
    // H1 should appear before the paragraph
    let h1_pos = result.find("# My Title").unwrap();
    let para_pos = result.find("Some content").unwrap();
    assert!(h1_pos < para_pos);
}

#[test]
fn test_insert_h1_empty_expected_is_noop() {
    let input = "---\ntype: t\n---\nContent.\n";
    let result = apply_and_serialize(
        input,
        &[Diagnostic::MissingH1 {
            expected: String::new(),
        }],
    );
    // No heading should have been inserted
    assert!(!result.contains("# \n"), "got: {result}");
}

// ── ReplaceH1 ─────────────────────────────────────────────────────────────

#[test]
fn test_replace_h1() {
    let result = apply_and_serialize(
        "---\ntype: t\n---\n# Old Title\n\nContent.\n",
        &[Diagnostic::H1Mismatch {
            line: 3,
            expected: "New Title".to_string(),
            actual: "Old Title".to_string(),
        }],
    );
    assert!(result.contains("# New Title\n"), "got: {result}");
    assert!(!result.contains("# Old Title"), "old title should be gone");
}

// ── UpdateManagedSection (append) ─────────────────────────────────────────

#[test]
fn test_managed_section_appended_when_missing() {
    let template_doc = parse("## Related\n\n- placeholder\n");
    let result = apply_and_serialize(
        "---\ntype: t\n---\n# Doc\n\nIntro.\n",
        &[Diagnostic::ManagedSectionNeedsUpdate {
            section_start: None,
            section_end: 0, // unused when appending
            managed_blocks: template_doc.blocks.clone(),
            custom_content: vec![],
        }],
    );
    assert!(result.contains("## Related\n"), "got: {result}");
    assert!(result.contains("- placeholder"), "got: {result}");
}

#[test]
fn test_managed_section_replaced() {
    let template_doc = parse("## Related\n\n- new content\n");
    let input = "---\ntype: t\n---\n# Doc\n\n## Related\n\n- old content\n";
    let mut doc = parse(input);

    // Find the H2 block index
    let section_start = doc
        .blocks
        .iter()
        .position(|b| matches!(b, Block::Heading { level: 2, .. }))
        .unwrap();
    let section_end = doc.blocks.len();

    apply_fixes(
        &mut doc,
        &[Diagnostic::ManagedSectionNeedsUpdate {
            section_start: Some(section_start),
            section_end,
            managed_blocks: template_doc.blocks.clone(),
            custom_content: vec![],
        }],
    );

    let result = serialize(&doc);
    assert!(result.contains("- new content"), "got: {result}");
    assert!(!result.contains("- old content"), "got: {result}");
}

// ── is_fixable / from_diagnostic ─────────────────────────────────────────

#[test]
fn test_is_fixable_missing_h1() {
    assert!(Fix::is_fixable(&Diagnostic::MissingH1 {
        expected: "X".to_string()
    }));
}

#[test]
fn test_is_fixable_unknown_type_is_not_fixable() {
    assert!(!Fix::is_fixable(&Diagnostic::UnknownType {
        line: 1,
        message: "bad type".to_string()
    }));
}

#[test]
fn test_from_diagnostic_missing_section_is_none() {
    assert!(Fix::from_diagnostic(&Diagnostic::MissingSection {
        section: "Goals".to_string()
    })
    .is_none());
}

// ── RemoveEmptySections ───────────────────────────────────────────────────

#[test]
fn test_remove_empty_section_single() {
    // Document: H1 + H2 "Notes" with no body
    let result = apply_and_serialize(
        "---\ntype: t\n---\n# Title\n\n## Notes\n",
        &[Diagnostic::EmptyOptionalSection {
            section_ranges: vec![(2, 3)], // H2 is block index 2, end = 3
        }],
    );
    assert!(
        !result.contains("## Notes"),
        "section should be gone: {result}"
    );
    assert!(result.contains("# Title"), "H1 should remain: {result}");
}

#[test]
fn test_remove_empty_sections_multiple_reverse_order() {
    // Two empty optional sections; ensure both are removed cleanly
    let input = "---\ntype: t\n---\n# Title\n\n## Alpha\n\n## Beta\n";
    let mut doc = parse(input);

    // Find actual block indices
    let alpha_idx = doc
        .blocks
        .iter()
        .position(|b| matches!(b, Block::Heading { level: 2, .. }))
        .unwrap();
    let beta_idx = doc
        .blocks
        .iter()
        .rposition(|b| matches!(b, Block::Heading { level: 2, .. }))
        .unwrap();

    let doc_len = doc.blocks.len();
    apply_fixes(
        &mut doc,
        &[Diagnostic::EmptyOptionalSection {
            section_ranges: vec![
                (alpha_idx, beta_idx), // Alpha: up to (but not including) Beta
                (beta_idx, doc_len),   // Beta: to end
            ],
        }],
    );
    let result = serialize(&doc);
    assert!(
        !result.contains("## Alpha"),
        "Alpha should be gone: {result}"
    );
    assert!(!result.contains("## Beta"), "Beta should be gone: {result}");
    assert!(result.contains("# Title"), "H1 should remain: {result}");
}

#[test]
fn test_is_fixable_empty_optional_section() {
    assert!(Fix::is_fixable(&Diagnostic::EmptyOptionalSection {
        section_ranges: vec![(0, 1)],
    }));
}

#[test]
fn test_malformed_link_is_not_fixable() {
    assert!(!Fix::is_fixable(&Diagnostic::MalformedLink {
        line: 5,
        url: "bad url.md".to_string(),
    }));
}

// ── ConvertParagraphsToBullets ─────────────────────────────────────────────

#[test]
fn test_convert_paragraph_to_bullet() {
    let input = "---\ntype: t\n---\n## Goals\n\nThis is a paragraph.\n";
    let doc = parse(input);
    // Find the paragraph's line number for the diagnostic
    let para_line = doc
        .blocks
        .iter()
        .find_map(|b| match b {
            Block::Paragraph { line, .. } => Some(*line),
            _ => None,
        })
        .unwrap();

    let result = apply_and_serialize(
        input,
        &[Diagnostic::SectionNotBullets {
            line: para_line,
            context: "section 'Goals'".to_string(),
        }],
    );
    assert!(
        result.contains("- This is a paragraph."),
        "paragraph should be converted to bullet: {result}"
    );
    assert!(
        !result.contains("\nThis is a paragraph."),
        "bare paragraph should be gone: {result}"
    );
}

#[test]
fn test_convert_multiple_paragraphs_to_bullets() {
    let input = "---\ntype: t\n---\n## Goals\n\nFirst paragraph.\n\nSecond paragraph.\n";
    let doc = parse(input);
    let para_diags: Vec<_> = doc
        .blocks
        .iter()
        .filter_map(|b| match b {
            Block::Paragraph { line, .. } => Some(Diagnostic::SectionNotBullets {
                line: *line,
                context: "section 'Goals'".to_string(),
            }),
            _ => None,
        })
        .collect();

    let mut doc = parse(input);
    apply_fixes(&mut doc, &para_diags);
    let result = serialize(&doc);
    assert!(result.contains("- First paragraph."), "got: {result}");
    assert!(result.contains("- Second paragraph."), "got: {result}");
}

#[test]
fn test_paragraphs_converted_to_bullets_form_one_list() {
    // Neighbouring paragraphs become items of one list.
    let mut doc = parse("## Goals\n\nFirst.\n\nSecond.\n");
    let diags: Vec<_> = doc
        .blocks
        .iter()
        .filter_map(|b| match b {
            Block::Paragraph { line, .. } => Some(Diagnostic::SectionNotBullets {
                line: *line,
                context: "section 'Goals'".to_string(),
            }),
            _ => None,
        })
        .collect();
    apply_fixes(&mut doc, &diags);
    assert_eq!(
        doc.blocks
            .iter()
            .filter(|b| matches!(b, Block::List { .. }))
            .count(),
        1,
        "expected one list: {:?}",
        doc.blocks
    );
    assert_eq!(serialize(&doc), "## Goals\n\n- First.\n\n- Second.\n");
}

// ── ConvertListType ───────────────────────────────────────────────────────

#[test]
fn test_convert_unordered_to_ordered() {
    let input = "---\ntype: t\n---\n## Steps\n\n- First\n- Second\n";
    let doc = parse(input);
    let list_line = doc
        .blocks
        .iter()
        .find_map(|b| match b {
            Block::List { line, .. } => Some(*line),
            _ => None,
        })
        .unwrap();

    let result = apply_and_serialize(
        input,
        &[Diagnostic::WrongListType {
            line: list_line,
            context: "section 'Steps'".to_string(),
            expected: "ordered".to_string(),
        }],
    );
    assert!(result.contains("1."), "should be ordered list: {result}");
    assert!(
        !result.contains("- First"),
        "should not have unordered markers: {result}"
    );
}

#[test]
fn test_convert_ordered_to_unordered() {
    let input = "---\ntype: t\n---\n## Items\n\n1. First\n2. Second\n";
    let doc = parse(input);
    let list_line = doc
        .blocks
        .iter()
        .find_map(|b| match b {
            Block::List { line, .. } => Some(*line),
            _ => None,
        })
        .unwrap();

    let result = apply_and_serialize(
        input,
        &[Diagnostic::WrongListType {
            line: list_line,
            context: "section 'Items'".to_string(),
            expected: "unordered".to_string(),
        }],
    );
    assert!(
        result.contains("- First"),
        "should be unordered list: {result}"
    );
    assert!(
        !result.contains("1."),
        "should not have ordered markers: {result}"
    );
}

// ── is_fixable for new diagnostics ────────────────────────────────────────

#[test]
fn test_is_fixable_section_not_bullets() {
    assert!(Fix::is_fixable(&Diagnostic::SectionNotBullets {
        line: 5,
        context: "section 'Goals'".to_string(),
    }));
}

#[test]
fn test_is_fixable_wrong_list_type() {
    assert!(Fix::is_fixable(&Diagnostic::WrongListType {
        line: 5,
        context: "section 'Steps'".to_string(),
        expected: "ordered".to_string(),
    }));
}

// ── ReorderSections ──────────────────────────────────────────────────────

#[test]
fn test_reorder_sections_swaps_two() {
    let input =
        "---\ntype: t\n---\n# Doc\n\n## Beta\n\nBeta content.\n\n## Alpha\n\nAlpha content.\n";
    let doc = parse(input);

    // Find H2 block indices
    let h2_indices: Vec<usize> = doc
        .blocks
        .iter()
        .enumerate()
        .filter_map(|(i, b)| match b {
            Block::Heading { level: 2, .. } => Some(i),
            _ => None,
        })
        .collect();

    let first_h2 = h2_indices[0];
    let second_h2 = h2_indices[1];
    let preamble = doc.blocks[..first_h2].to_vec();
    let beta_section = doc.blocks[first_h2..second_h2].to_vec();
    let alpha_section = doc.blocks[second_h2..].to_vec();

    let result = apply_and_serialize(
        input,
        &[Diagnostic::SectionsOutOfOrder {
            preamble,
            sorted_sections: vec![alpha_section, beta_section],
        }],
    );
    let alpha_pos = result.find("## Alpha").expect("Alpha should exist");
    let beta_pos = result.find("## Beta").expect("Beta should exist");
    assert!(
        alpha_pos < beta_pos,
        "Alpha should come before Beta: {result}"
    );
}

#[test]
fn test_reorder_sections_preserves_content() {
    let input = "---\ntype: t\n---\n# Doc\n\n## Gamma\n\nG content.\n\n## Alpha\n\nA content.\n\n## Beta\n\nB content.\n";
    let doc = parse(input);

    // Build preamble + sorted sections from the parsed doc
    // Blocks: [frontmatter, H1, blank, H2-Gamma, blank, para-G, blank, H2-Alpha, blank, para-A, blank, H2-Beta, blank, para-B]
    let h2_indices: Vec<usize> = doc
        .blocks
        .iter()
        .enumerate()
        .filter_map(|(i, b)| match b {
            Block::Heading { level: 2, .. } => Some(i),
            _ => None,
        })
        .collect();

    let first_h2 = h2_indices[0];
    let preamble = doc.blocks[..first_h2].to_vec();

    // Extract sections
    let mut sections: Vec<(usize, Vec<Block>)> = Vec::new();
    for (pos, &start) in h2_indices.iter().enumerate() {
        let end = h2_indices.get(pos + 1).copied().unwrap_or(doc.blocks.len());
        // Schema order: Alpha=0, Beta=1, Gamma=2
        let order = match &doc.blocks[start] {
            Block::Heading { content, .. } => {
                let title = inlines_to_string(content);
                match title.as_str() {
                    "Alpha" => 0,
                    "Beta" => 1,
                    "Gamma" => 2,
                    _ => 99,
                }
            }
            _ => 99,
        };
        sections.push((order, doc.blocks[start..end].to_vec()));
    }
    sections.sort_by_key(|(order, _)| *order);
    let sorted_sections: Vec<Vec<Block>> =
        sections.into_iter().map(|(_, blocks)| blocks).collect();

    let result = apply_and_serialize(
        input,
        &[Diagnostic::SectionsOutOfOrder {
            preamble,
            sorted_sections,
        }],
    );

    // Verify order
    let alpha_pos = result.find("## Alpha").unwrap();
    let beta_pos = result.find("## Beta").unwrap();
    let gamma_pos = result.find("## Gamma").unwrap();
    assert!(alpha_pos < beta_pos, "Alpha < Beta: {result}");
    assert!(beta_pos < gamma_pos, "Beta < Gamma: {result}");

    // Verify content preserved
    assert!(
        result.contains("A content."),
        "Alpha content preserved: {result}"
    );
    assert!(
        result.contains("B content."),
        "Beta content preserved: {result}"
    );
    assert!(
        result.contains("G content."),
        "Gamma content preserved: {result}"
    );
}

#[test]
fn test_is_fixable_section_out_of_order() {
    assert!(Fix::is_fixable(&Diagnostic::SectionOutOfOrder {
        line: 5,
        section: "Alpha".to_string(),
    }));
}

#[test]
fn test_is_fixable_sections_out_of_order() {
    assert!(Fix::is_fixable(&Diagnostic::SectionsOutOfOrder {
        preamble: vec![],
        sorted_sections: vec![],
    }));
}

#[test]
fn ranges_are_removed_in_whatever_order_they_come() {
    let mut doc = parse("# T\n\n## A\n\n## B\n\nText.\n\n## C\n");
    let empty = Fix::RemoveEmptySections { section_ranges: vec![(8, 20), (3, 3), (2, 4)] };
    empty.apply(&mut doc);
    assert_eq!(serialize(&doc), "# T\n\n## B\n\nText.\n\n");
}

// ── what fixes leave ──────────────────────────────────────────────────────

#[test]
fn fixed_titles_and_markers_hold_still() {
    let mut doc = parse("Intro.\n\n# Old\n\n# Other\n");
    let title = Fix::ReplaceH1 { text: "New".to_string() };
    title.apply(&mut doc);
    let once = serialize(&doc);
    assert_eq!(once, "Intro.\n\n# New\n\n# Other\n");
    title.apply(&mut doc);
    assert_eq!(serialize(&doc), once);

    let mut doc = parse("- a\n- b\n");
    let marker = Fix::ConvertListType { list_index: 0, ordered: true };
    marker.apply(&mut doc);
    assert_eq!(serialize(&doc), "1. a\n2. b\n");
    marker.apply(&mut doc);
    assert_eq!(serialize(&doc), "1. a\n2. b\n");
}
