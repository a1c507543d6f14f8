use amadeus::amadeus_m::count_tables::{
    read_flat, read_pairs, read_table, write_flat, write_pairs, write_table, CountRow, TableKind, Width,
};
use amadeus::amadeus_m::cube_record::{
    read_blob, read_cube, write_blob, write_cube, CubeContext, CubeRecord,
};
use amadeus::amadeus_m::grammar_record::{read_grammar, write_grammar, GrammarError, GrammarRecord};

fn bits(x: f32) -> u32 {
    x.to_bits()
}

fn agreement_row() -> CountRow {
    CountRow { key: (0x0102, 3, 4), total: bits(1.0), entries: vec![(5, 6, bits(2.0))] }
}

#[test]
fn agreement_rows_use_their_field_widths() {
    let mut d = Vec::new();
    write_table(&mut d, TableKind::Agreement, &[agreement_row()]);
    let mut want = vec![1, 0, 0, 0, 0x02, 0x01, 3, 0, 4];
    want.extend_from_slice(&1.0f32.to_le_bytes());
    want.extend_from_slice(&[1, 0, 0, 0, 5, 0, 6, 0]);
    want.extend_from_slice(&2.0f32.to_le_bytes());
    assert_eq!(d, want);
}

#[test]
fn tables_read_back_what_was_written() {
    let rows = vec![
        CountRow { key: (0x0203, 7, 0x0405), total: bits(3.0), entries: vec![(42, 0, bits(1.0)), (43, 0, bits(2.0))] },
        CountRow { key: (9, 1, 2), total: bits(0.5), entries: vec![] },
    ];
    let mut d = vec![0xAA];
    write_table(&mut d, TableKind::Lexicon, &rows);
    d.push(0xBB);
    let (back, end) = read_table(&d, 1, TableKind::Lexicon).unwrap();
    assert_eq!(end, d.len() - 1);
    assert_eq!(back.len(), 2);
    assert_eq!(back[0].key, (0x0203, 7, 0x0405));
    assert_eq!(back[0].total, bits(3.0));
    assert_eq!(back[0].entries, vec![(42, 0, bits(1.0)), (43, 0, bits(2.0))]);
    assert_eq!(back[1].key, (9, 1, 2));
    assert!(back[1].entries.is_empty());
}

#[test]
fn one_field_keys_read_back_with_zero_slots() {
    let rows = vec![CountRow { key: (5, 0, 0), total: bits(1.0), entries: vec![(7, 8, bits(1.0))] }];
    let mut d = Vec::new();
    write_table(&mut d, TableKind::AgreementClass, &rows);
    assert_eq!(d.len(), 4 + 1 + 4 + 4 + 2 + 2 + 4);
    let (back, _) = read_table(&d, 0, TableKind::AgreementClass).unwrap();
    assert_eq!(back[0].key, (5, 0, 0));
    assert_eq!(back[0].entries, vec![(7, 8, bits(1.0))]);
}

#[test]
fn a_table_cut_short_is_refused() {
    let mut d = Vec::new();
    write_table(&mut d, TableKind::Agreement, &[agreement_row()]);
    for n in 0..d.len() {
        assert!(read_table(&d[..n], 0, TableKind::Agreement).is_none(), "length {n}");
    }
}

#[test]
fn id_tables_store_classes_in_one_byte() {
    let mut d = Vec::new();
    write_pairs(&mut d, &[(10, 3), (11, 0x1FF)], Width::One);
    assert_eq!(d, vec![2, 0, 0, 0, 10, 0, 0, 0, 3, 11, 0, 0, 0, 0xFF]);
    let (back, end) = read_pairs(&d, 0, Width::One).unwrap();
    assert_eq!(back, vec![(10, 3), (11, 0xFF)]);
    assert_eq!(end, d.len());
    let mut g = Vec::new();
    write_pairs(&mut g, &[(1, 0xDEADBEEF)], Width::Four);
    assert_eq!(read_pairs(&g, 0, Width::Four).unwrap().0, vec![(1, 0xDEADBEEF)]);
}

fn cube(order: u32) -> CubeRecord {
    CubeRecord {
        order,
        lambda: (0..order).map(|i| bits(1.0 / (i + 1) as f32)).collect(),
        contexts: vec![
            CubeContext { ctx: vec![1, u128::MAX], total: bits(3.0), nexts: vec![(7, bits(1.0)), (8, bits(2.0))] },
            CubeContext { ctx: vec![5], total: bits(1.0), nexts: vec![(9, bits(1.0))] },
        ],
        unigram_total: bits(4.0),
        unigram: vec![(7, bits(1.0)), (8, bits(2.0)), (9, bits(1.0))],
    }
}

#[test]
fn cube_records_start_with_order_and_weights() {
    let c = CubeRecord { order: 1, lambda: vec![bits(1.0)], contexts: vec![], unigram_total: 0, unigram: vec![] };
    let mut d = Vec::new();
    write_cube(&mut d, &c);
    let mut want = vec![1, 0, 0, 0];
    want.extend_from_slice(&1.0f32.to_le_bytes());
    want.extend_from_slice(&[0; 12]);
    assert_eq!(d, want);
}

#[test]
fn cubes_read_back_what_was_written() {
    let c = cube(3);
    let mut d = Vec::new();
    write_cube(&mut d, &c);
    let (back, end) = read_cube(&d, 0).unwrap();
    assert_eq!(end, d.len());
    assert_eq!(back.order, 3);
    assert_eq!(back.lambda, c.lambda);
    assert_eq!(back.contexts.len(), 2);
    assert_eq!(back.contexts[0].ctx, vec![1, u128::MAX]);
    assert_eq!(back.contexts[0].total, bits(3.0));
    assert_eq!(back.contexts[1].nexts, vec![(9, bits(1.0))]);
    assert_eq!(back.unigram_total, bits(4.0));
    assert_eq!(back.unigram, c.unigram);
    assert!(read_cube(&d[..d.len() - 1], 0).is_none());
}

#[test]
fn blobs_read_back_contexts_unigrams_and_weights() {
    let c = cube(2);
    let d = write_blob(&c);
    let b = read_blob(&d, 2);
    assert_eq!(b.contexts.len(), 2);
    assert_eq!(b.contexts[0].ctx, vec![1, u128::MAX]);
    assert_eq!(b.contexts[0].nexts, vec![(7, bits(1.0)), (8, bits(2.0))]);
    assert_eq!(b.unigram_total, bits(4.0));
    assert_eq!(b.unigram, c.unigram);
    assert_eq!(b.lambda, Some(c.lambda.clone()));
}

#[test]
fn blob_contexts_longer_than_the_order_allows_stop_the_reading() {
    let c = cube(2);
    let d = write_blob(&c);
    // With order 0 a context may have one word: the first has two, so no
    // context is read and the unigram section is looked for right after
    // its length, inside the context's first word (1 as 16 bytes).
    let b = read_blob(&d, 0);
    assert!(b.contexts.is_empty());
    assert_eq!(&d[8..12], &[1, 0, 0, 0]);
    assert_eq!(b.unigram_total, 0);
    assert_eq!(b.unigram, vec![(0, 0)]);
}

#[test]
fn short_blobs_read_as_empty() {
    let b = read_blob(&[1, 0, 0], 3);
    assert!(b.contexts.is_empty() && b.unigram.is_empty() && b.lambda.is_none());
    assert_eq!(b.unigram_total, 0);
    // A context count with nothing after it: no unigram section, no weights.
    let b = read_blob(&[1, 0, 0, 0], 3);
    assert!(b.contexts.is_empty() && b.lambda.is_none());
}

#[test]
fn blob_weights_stop_where_the_bytes_do() {
    let mut d = vec![0, 0, 0, 0];
    d.extend_from_slice(&[0, 0, 0, 0]); // no unigrams
    d.extend_from_slice(&bits(4.0).to_le_bytes());
    d.extend_from_slice(&[3, 0, 0, 0]); // three weights announced
    d.extend_from_slice(&bits(0.5).to_le_bytes());
    d.extend_from_slice(&[1, 2]);
    let b = read_blob(&d, 3);
    assert_eq!(b.unigram_total, bits(4.0));
    assert_eq!(b.lambda, Some(vec![bits(0.5)]));
}

fn grammar() -> GrammarRecord {
    GrammarRecord {
        syntax_order: 3,
        temperature: bits(1.0),
        exploration: bits(0.08),
        clause: cube(2),
        sentence: cube(1),
        paragraph: cube(0),
        text: cube(3),
        agreement: vec![agreement_row()],
        agreement_class: vec![CountRow { key: (2, 0, 0), total: bits(1.0), entries: vec![(1, 2, bits(1.0))] }],
        agreement_gparent: vec![],
        lexicon: vec![CountRow { key: (0x0102, 4, 9), total: bits(1.0), entries: vec![(77, 0, bits(1.0))] }],
        lexicon_cls_syn_style: vec![],
        lexicon_cls_syn: vec![CountRow { key: (2, 4, 0), total: bits(2.0), entries: vec![(77, 0, bits(2.0))] }],
        lexicon_cls_style: vec![],
        lexicon_class: vec![CountRow { key: (2, 0, 0), total: bits(2.0), entries: vec![(77, 0, bits(2.0))] }],
        classes: vec![(77, 2)],
        graph: vec![(77, 0xABCD)],
    }
}

#[test]
fn grammar_files_read_back_what_was_written() {
    let g = grammar();
    let d = write_grammar(&g, bits(0.15));
    assert_eq!(&d[0..4], &[4, 0, 0, 0]);
    let (back, alpha) = read_grammar(&d).unwrap();
    assert_eq!(alpha, Some(bits(0.15)));
    assert_eq!(back.syntax_order, 3);
    assert_eq!(back.exploration, bits(0.08));
    assert_eq!(back.text.order, 3);
    assert_eq!(back.agreement[0].key, (0x0102, 3, 4));
    assert_eq!(back.lexicon[0].entries, vec![(77, 0, bits(1.0))]);
    assert_eq!(back.classes, vec![(77, 2)]);
    assert_eq!(back.graph, vec![(77, 0xABCD)]);
}

#[test]
fn grammar_files_of_another_version_are_refused() {
    let mut d = write_grammar(&grammar(), 0);
    d[0] = 3;
    assert_eq!(read_grammar(&d).unwrap_err(), GrammarError::Version(3));
    assert_eq!(read_grammar(&[4, 0]).unwrap_err(), GrammarError::Truncated);
}

#[test]
fn a_grammar_file_without_its_graph_weight_still_loads() {
    let d = write_grammar(&grammar(), bits(0.15));
    let (_, alpha) = read_grammar(&d[..d.len() - 4]).unwrap();
    assert_eq!(alpha, None);
    assert_eq!(read_grammar(&d[..d.len() - 5]).unwrap_err(), GrammarError::Truncated);
}

#[test]
fn flat_sections_hold_one_record_per_entry() {
    let rows = vec![
        agreement_row(),
        CountRow { key: (7, 8, 9), total: bits(2.0), entries: vec![(1, 2, bits(0.5)), (3, 4, bits(1.5))] },
    ];
    let d = write_flat(TableKind::Agreement, &rows);
    assert_eq!(d.len(), 3 * 24);
    assert_eq!(&d[0..4], &0x0102u32.to_le_bytes());
    assert_eq!(&d[20..24], &2.0f32.to_le_bytes());
    let mut cut = d.clone();
    cut.extend_from_slice(&[9, 9, 9]);
    let back = read_flat(&cut, TableKind::Agreement);
    assert_eq!(
        back,
        vec![
            ((0x0102, 3, 4), (5, 6, bits(2.0))),
            ((7, 8, 9), (1, 2, bits(0.5))),
            ((7, 8, 9), (3, 4, bits(1.5))),
        ]
    );
}

#[test]
fn flat_cells_are_cut_to_their_field_widths() {
    let mut d = Vec::new();
    for v in [0x1_2345u32, 0x1FF, 0xABCD, 0xDEAD_BEEF, 7] {
        d.extend_from_slice(&v.to_le_bytes());
    }
    // Lexicon records: morphology (2 bytes), function (1), style (2), id, count.
    assert_eq!(read_flat(&d, TableKind::Lexicon), vec![((0x2345, 0xFF, 0xABCD), (0xDEAD_BEEF, 0, 7))]);
    // Class records: class (1), id, count.
    let c = &d[..12];
    assert_eq!(read_flat(c, TableKind::Class), vec![((0x45, 0, 0), (0x1FF, 0, 0xABCD))]);
}
