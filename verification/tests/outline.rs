use patent_tagger::domain::outline::{add_references, claim_blocks, description_blocks, utf16_len, Block, BlockKind, ClaimRef};

fn slice(text: &str, start: usize, end: usize) -> String {
    let units: Vec<u16> = text.encode_utf16().collect();
    String::from_utf16(&units[start..end]).unwrap()
}

#[test]
fn description_numbered_paragraphs_and_headings() {
    let text = "FIELD OF THE INVENTION\n[0001] The invention relates to bricks.\n\nBackground\n[0002] Known apparatus.";
    let blocks = description_blocks(text);
    assert_eq!(blocks.len(), 4);
    assert_eq!(blocks[0].kind, BlockKind::Heading);
    assert_eq!(
        slice(text, blocks[0].start, blocks[0].end),
        "FIELD OF THE INVENTION"
    );
    assert_eq!(blocks[1].kind, BlockKind::Paragraph);
    assert_eq!(blocks[1].label.as_deref(), Some("0001"));
    assert_eq!(blocks[2].kind, BlockKind::Heading);
    assert_eq!(
        slice(text, blocks[3].start, blocks[3].end),
        "[0002] Known apparatus."
    );
}

#[test]
fn unnumbered_sentences_are_paragraphs_not_headings() {
    let blocks = description_blocks(
        "A short sentence.\nWhat is claimed is:\nfigure 5 is a perspective view of a part; and",
    );
    assert_eq!(blocks[0].kind, BlockKind::Paragraph);
    assert_eq!(blocks[0].label, None);
    assert_eq!(blocks[1].kind, BlockKind::Heading);
    // A list item of the figure descriptions (EP1000000).
    assert_eq!(blocks[2].kind, BlockKind::Paragraph);
}

#[test]
fn offsets_are_utf16_units() {
    // "𝛼" is two UTF-16 units and four UTF-8 bytes.
    let text = "[0001] 𝛼 é\n[0002] next";
    let blocks = description_blocks(text);
    assert_eq!(slice(text, blocks[1].start, blocks[1].end), "[0002] next");
    assert_eq!(blocks[0].end, 11);
}

#[test]
fn claims_with_dependencies() {
    let text = "1. Apparatus for bricks.\n\
                2. Apparatus as claimed in claim 1, wherein X.\n\
                3. Apparatus as claimed in claim 1 or 2, wherein Y.\n\
                4. Apparatus as claimed in any of the foregoing claims, wherein Z.\n\
                5. Apparatus according to any one of claims 2 to 4.\n\
                6. Method using the apparatus.";
    let blocks = claim_blocks(text);
    assert_eq!(blocks.len(), 6);
    let labels: Vec<_> = blocks.iter().map(|b| b.label.clone().unwrap()).collect();
    assert_eq!(labels, ["1", "2", "3", "4", "5", "6"]);
    assert!(blocks[0].depends_on.is_empty());
    assert_eq!(blocks[1].depends_on, [1]);
    assert_eq!(blocks[2].depends_on, [1, 2]);
    assert_eq!(blocks[3].depends_on, [1, 2, 3]);
    assert!(blocks[3].claim_refs.is_empty());
    assert_eq!(blocks[4].depends_on, [2, 3, 4]);
    assert!(blocks[5].depends_on.is_empty());

    let refs = &blocks[2].claim_refs;
    assert_eq!(refs.len(), 2);
    assert_eq!(slice(text, refs[0].start, refs[0].end), "claim 1");
    assert_eq!(slice(text, refs[1].start, refs[1].end), "2");
    assert_eq!(refs[1].claim, 2);
}

#[test]
fn claimed_and_hyphenated_ranges() {
    let blocks = claim_blocks("1. A.\n2. B.\n3. C.\n4. Device of Claims 1-3 as claimed.");
    assert_eq!(blocks[3].depends_on, [1, 2, 3]);
    assert_eq!(blocks[3].claim_refs.len(), 2);
}

#[test]
fn continuation_lines_belong_to_the_previous_claim() {
    let text = "1. A device comprising:\na housing; and\na lid.\n2. The device of claim 1.";
    let blocks = claim_blocks(text);
    assert_eq!(blocks.len(), 2);
    assert_eq!(
        slice(text, blocks[0].start, blocks[0].end),
        "1. A device comprising:\na housing; and\na lid."
    );
    assert_eq!(blocks[1].depends_on, [1]);
}

#[test]
fn a_forward_reference_is_linked_but_not_a_dependency() {
    let blocks = claim_blocks("1. A device for use with the system of claim 2.\n2. A system.");
    assert!(blocks[0].depends_on.is_empty());
    assert_eq!(blocks[0].claim_refs[0].claim, 2);
}

#[test]
fn utf16_len_counts_code_units() {
    assert_eq!(utf16_len(""), 0);
    assert_eq!(utf16_len("abc"), 3);
    assert_eq!(utf16_len("é"), 1);
    assert_eq!(utf16_len("𝛼"), 2);
}

#[test]
fn blank_lines_make_no_blocks() {
    assert!(description_blocks("").is_empty());
    assert!(description_blocks("  \n\t\n").is_empty());
    assert!(claim_blocks("\n \n").is_empty());
}

#[test]
fn text_before_the_first_claim_is_an_unnumbered_block() {
    let text = "What is claimed is:\n1. A lid.\n2) A box with the lid of claim 1.";
    let blocks = claim_blocks(text);
    assert_eq!(blocks.len(), 3);
    assert_eq!(blocks[0].label, None);
    assert_eq!(blocks[1].label.as_deref(), Some("1"));
    assert_eq!(blocks[2].label.as_deref(), Some("2"));
    assert_eq!(blocks[2].depends_on, [1]);
    assert_eq!(slice(text, blocks[2].claim_refs[0].start, blocks[2].claim_refs[0].end), "claim 1");
}

#[test]
fn ranges_list_and_repeats_are_merged_ascending() {
    let blocks = claim_blocks(
        "1. A.\n2. B.\n3. C.\n4. D.\n5. E according to claims 3, 1 and 2, or claim 1 \u{2013} 2.",
    );
    assert_eq!(blocks[4].depends_on, [1, 2, 3]);
    assert_eq!(blocks[4].claim_refs.len(), 5);
}

#[test]
fn words_ending_in_claim_are_not_references() {
    let blocks = claim_blocks("1. A.\n2. A disclaim 1 and a reclaims 1.");
    assert!(blocks[1].depends_on.is_empty());
    assert!(blocks[1].claim_refs.is_empty());
}

#[test]
fn long_unnumbered_lines_are_paragraphs() {
    let long = "A".repeat(121);
    let blocks = description_blocks(&long);
    assert_eq!(blocks[0].kind, BlockKind::Paragraph);
    let blocks = description_blocks(&"A".repeat(120));
    assert_eq!(blocks[0].kind, BlockKind::Heading);
}

#[test]
fn claim_references_lie_within_their_line() {
    let text = "1. A battery.\n2. The battery of claim 1, with an anode.\n3. The battery of claims 1 or 2.";
    let blocks = claim_blocks(text);
    assert_eq!(blocks.len(), 3);
    for b in &blocks {
        for r in &b.claim_refs {
            assert!(b.start <= r.start && r.start < r.end && r.end <= b.end);
        }
    }
    assert_eq!(blocks[2].claim_refs.len(), 2);
    assert_eq!(slice(text, blocks[2].claim_refs[0].start, blocks[2].claim_refs[0].end), "claims 1");
    assert_eq!(slice(text, blocks[2].claim_refs[1].start, blocks[2].claim_refs[1].end), "2");
}

#[test]
fn adding_references_keeps_the_block_and_its_earlier_references() {
    let earlier = ClaimRef { start: 12, end: 19, claim: 1 };
    let mut block = Block {
        kind: BlockKind::Claim,
        label: Some("3".to_string()),
        start: 10,
        end: 80,
        depends_on: vec![1],
        claim_refs: vec![earlier.clone()],
    };
    let line: Vec<char> = "The battery of claims 1 or 4".chars().collect();
    add_references(&mut block, Some(3), &line, 50);
    assert_eq!(block.kind, BlockKind::Claim);
    assert_eq!(block.label.as_deref(), Some("3"));
    assert_eq!((block.start, block.end), (10, 80));
    assert_eq!(
        block.claim_refs,
        vec![earlier, ClaimRef { start: 65, end: 73, claim: 1 }, ClaimRef { start: 77, end: 78, claim: 4 }]
    );
    // Claim 4 comes later: linked in the text, but no dependency of claim 3.
    assert_eq!(block.depends_on, vec![1]);
    for r in &block.claim_refs[1..] {
        assert!(50 <= r.start && r.start < r.end && r.end <= 50 + line.len());
    }
}
