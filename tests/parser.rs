use cooklang_cst::document::{parse, rebuild_source, Block, BlockKind, Tree};
use cooklang_cst::inline::{parse_step, scan_annotation, Annotation, AnnotationKind, Inline};
use cooklang_cst::lexer::Span;
use cooklang_cst::node::{kind_of_block, kind_of_inline, node_kind_name, NodeKind};
use cooklang_cst::quantity::{parse_amount, parse_number, parse_quantity, Amount, Quantity};

fn text(src: &[u8], sp: Span) -> &str {
    std::str::from_utf8(&src[sp.start..sp.end]).unwrap()
}

fn annotations(t: &Tree) -> Vec<Annotation> {
    let mut out = Vec::new();
    for b in &t.blocks {
        for x in &b.items {
            if let Inline::Annotation(a) = x {
                out.push(*a);
            }
        }
    }
    out
}

fn only_step(t: &Tree) -> &Block {
    assert_eq!(t.blocks.len(), 1);
    assert_eq!(t.blocks[0].kind, BlockKind::Step);
    &t.blocks[0]
}

fn assert_lossless(src: &[u8]) {
    let t = parse(src);
    assert_eq!(rebuild_source(src, &t), src.to_vec());
    let mut at = 0;
    for b in &t.blocks {
        assert_eq!(b.span.start, at);
        assert!(b.span.start < b.span.end);
        at = b.span.end;
        if b.kind == BlockKind::Step {
            let mut p = b.span.start;
            for x in &b.items {
                let sp = match x {
                    Inline::Text(sp) => *sp,
                    Inline::Annotation(a) => a.span,
                    Inline::Comment(sp) => *sp,
                };
                assert_eq!(sp.start, p);
                p = sp.end;
            }
            assert_eq!(p, b.span.end);
        }
    }
    assert_eq!(at, src.len());
}

#[test]
fn lossless_on_varied_inputs() {
    let inputs: Vec<&[u8]> = vec![
        b"",
        b"\n",
        b"\n\n  \n",
        b"---\ntitle: X\n---\nStep.",
        b"Mix @flour{2%cups} with @water{1%cup}.\nBake ~{30%minutes}.\n",
        b"== Dough ==\n-- a note\nKnead [- gently -] the #bowl{}.\n",
        b"Add @sugar{2%cup",
        b"\xff\xfe @\x80{\xc3}} #~%{{",
        b"---\nno close\n",
    ];
    for src in inputs {
        assert_lossless(src);
    }
}

#[test]
fn reparse_of_rebuilt_source_is_identical() {
    let src: &[u8] = b"---\na: b\n---\n\nMix @olive oil{2%tbsp} in a #pan{}.\n= Sauce\n~{5%min} -- stir\n";
    let t = parse(src);
    let again = parse(&rebuild_source(src, &t));
    assert_eq!(format!("{:?}", t), format!("{:?}", again));
}

#[test]
fn parse_is_total_on_empty_and_invalid_bytes() {
    assert_eq!(parse(b"").blocks.len(), 0);
    let src: &[u8] = b"\x00\xff@\xff\n~{\n#";
    let t = parse(src);
    assert_eq!(t.blocks.len(), 3);
    assert_lossless(src);
}

#[test]
fn frontmatter_is_isolated() {
    let src: &[u8] = b"---\ntitle: X\n---\nStep.";
    let t = parse(src);
    assert_eq!(t.blocks.len(), 2);
    assert_eq!(t.blocks[0].kind, BlockKind::Frontmatter);
    assert_eq!(t.blocks[0].span, Span { start: 0, end: 17 });
    assert_eq!(text(src, t.blocks[0].inner), "title: X\n");
    assert_eq!(t.blocks[1].kind, BlockKind::Step);
    assert_eq!(t.blocks[1].items.len(), 1);
    match t.blocks[1].items[0] {
        Inline::Text(sp) => assert_eq!(text(src, sp), "Step."),
        _ => panic!("expected a text run"),
    }
}

#[test]
fn unclosed_frontmatter_is_plain_text() {
    let src: &[u8] = b"---\ntitle: X\n";
    let t = parse(src);
    assert_eq!(t.blocks.len(), 2);
    assert_eq!(t.blocks[0].kind, BlockKind::Step);
    assert_eq!(t.blocks[0].items, vec![Inline::Text(Span { start: 0, end: 4 })]);
    assert_eq!(t.blocks[1].kind, BlockKind::Step);
}

#[test]
fn braced_annotations_are_extracted() {
    let src: &[u8] = b"Mix @flour{2%cups} with @water{1%cup}.";
    let t = parse(src);
    let b = only_step(&t);
    assert_eq!(b.items.len(), 5);
    let anns = annotations(&t);
    assert_eq!(anns.len(), 2);
    assert_eq!(anns[0].kind, AnnotationKind::Ingredient);
    assert_eq!(text(src, anns[0].name), "flour");
    let q0 = anns[0].quantity.unwrap();
    assert_eq!(q0.amount, Amount::Integer(2));
    assert_eq!(text(src, q0.unit.unwrap()), "cups");
    assert_eq!(text(src, anns[1].name), "water");
    let q1 = anns[1].quantity.unwrap();
    assert_eq!(q1.amount, Amount::Integer(1));
    assert_eq!(text(src, q1.unit.unwrap()), "cup");
    assert_eq!(text(src, anns[1].span), "@water{1%cup}");
}

#[test]
fn bare_annotations_stop_at_space_and_punctuation() {
    let src: &[u8] = b"Season with @salt and @pepper.";
    let t = parse(src);
    let anns = annotations(&t);
    assert_eq!(anns.len(), 2);
    assert_eq!(text(src, anns[0].name), "salt");
    assert_eq!(anns[0].quantity, None);
    assert_eq!(text(src, anns[1].name), "pepper");
    assert_eq!(anns[1].quantity, None);
    let b = only_step(&t);
    assert_eq!(b.items.last(), Some(&Inline::Text(Span { start: 29, end: 30 })));
}

#[test]
fn timer_without_braces_is_text() {
    let src: &[u8] = b"Wait ~ a bit";
    let t = parse(src);
    let b = only_step(&t);
    assert_eq!(b.items, vec![Inline::Text(Span { start: 0, end: 12 })]);
}

#[test]
fn timer_with_braces_and_no_name() {
    let src: &[u8] = b"Bake for ~{30%minutes}.";
    let anns = annotations(&parse(src));
    assert_eq!(anns.len(), 1);
    assert_eq!(anns[0].kind, AnnotationKind::Timer);
    assert_eq!(anns[0].name, Span { start: 10, end: 10 });
    let q = anns[0].quantity.unwrap();
    assert_eq!(q.amount, Amount::Integer(30));
    assert_eq!(text(src, q.unit.unwrap()), "minutes");
}

#[test]
fn timer_with_empty_braces_is_text() {
    let src: &[u8] = b"Wait ~{} now";
    let t = parse(src);
    assert_eq!(annotations(&t).len(), 0);
    assert_eq!(only_step(&t).items, vec![Inline::Text(Span { start: 0, end: 12 })]);
}

#[test]
fn cookware_with_empty_braces() {
    let src: &[u8] = b"In a large #pan{}, stir.";
    let anns = annotations(&parse(src));
    assert_eq!(anns.len(), 1);
    assert_eq!(anns[0].kind, AnnotationKind::Cookware);
    assert_eq!(text(src, anns[0].name), "pan");
    assert_eq!(anns[0].quantity, None);
    assert_eq!(text(src, anns[0].span), "#pan{}");
}

#[test]
fn multi_word_name_runs_to_the_brace() {
    let src: &[u8] = b"Add @olive oil{2%tbsp} and @arborio rice{1.5%cups}.";
    let anns = annotations(&parse(src));
    assert_eq!(anns.len(), 2);
    assert_eq!(text(src, anns[0].name), "olive oil");
    assert_eq!(anns[0].quantity.unwrap().amount, Amount::Integer(2));
    assert_eq!(text(src, anns[1].name), "arborio rice");
    assert_eq!(
        anns[1].quantity.unwrap().amount,
        Amount::Decimal { whole: 1, fraction: 5, scale: 1 }
    );
}

#[test]
fn fraction_range_and_free_text_amounts() {
    let q = parse_quantity(b"1/2%cup", 0, 7).unwrap();
    assert_eq!(q.amount, Amount::Fraction(1, 2));
    assert_eq!(q.unit, Some(Span { start: 4, end: 7 }));
    let q = parse_quantity(b"2-3%tbsp", 0, 8).unwrap();
    assert_eq!(q.amount, Amount::Range(2, 3));
    assert_eq!(q.unit, Some(Span { start: 4, end: 8 }));
    let q = parse_quantity(b"large%", 0, 6).unwrap();
    assert_eq!(q.amount, Amount::FreeText(Span { start: 0, end: 5 }));
    assert_eq!(q.unit, None);
}

#[test]
fn quantity_trims_amount_and_unit() {
    let src: &[u8] = b" 2 %  cups ";
    let q = parse_quantity(src, 0, src.len()).unwrap();
    assert_eq!(
        q,
        Quantity {
            amount: Amount::Integer(2),
            amount_span: Span { start: 1, end: 2 },
            unit: Some(Span { start: 6, end: 10 }),
        }
    );
    assert_eq!(parse_quantity(b"  ", 0, 2), None);
    assert_eq!(parse_quantity(b"", 0, 0), None);
    let q = parse_quantity(b"3", 0, 1).unwrap();
    assert_eq!(q.amount, Amount::Integer(3));
    assert_eq!(q.unit, None);
}

#[test]
fn amount_partial_numbers_are_free_text() {
    assert_eq!(parse_amount(b"1/x", 0, 3), Amount::FreeText(Span { start: 0, end: 3 }));
    assert_eq!(parse_amount(b"1-", 0, 2), Amount::FreeText(Span { start: 0, end: 2 }));
    assert_eq!(parse_amount(b"1*2", 0, 3), Amount::FreeText(Span { start: 0, end: 3 }));
    assert_eq!(parse_amount(b"1.2.3", 0, 5), Amount::FreeText(Span { start: 0, end: 5 }));
    assert_eq!(parse_amount(b"", 0, 0), Amount::FreeText(Span { start: 0, end: 0 }));
    assert_eq!(
        parse_amount(b"1.05", 0, 4),
        Amount::Decimal { whole: 1, fraction: 5, scale: 2 }
    );
}

#[test]
fn numbers_that_overflow_are_free_text() {
    assert_eq!(parse_number(b"18446744073709551615", 0, 20), Some(u64::MAX));
    assert_eq!(parse_number(b"18446744073709551616", 0, 20), None);
    assert_eq!(parse_number(b"0042", 0, 4), Some(42));
    assert_eq!(
        parse_amount(b"99999999999999999999", 0, 20),
        Amount::FreeText(Span { start: 0, end: 20 })
    );
}

#[test]
fn unterminated_brace_degrades_to_text() {
    let src: &[u8] = b"Add @sugar{2%cup";
    let t = parse(src);
    let b = only_step(&t);
    assert_eq!(b.items.len(), 3);
    assert_eq!(b.items[0], Inline::Text(Span { start: 0, end: 4 }));
    match b.items[1] {
        Inline::Annotation(a) => {
            assert_eq!(a.kind, AnnotationKind::Ingredient);
            assert_eq!(text(src, a.name), "sugar");
            assert_eq!(a.quantity, None);
        }
        _ => panic!("expected an annotation"),
    }
    match b.items[2] {
        Inline::Text(sp) => assert_eq!(text(src, sp), "{2%cup"),
        _ => panic!("expected a text run"),
    }
}

#[test]
fn brace_does_not_close_on_a_later_line() {
    let src: &[u8] = b"Add @sugar{2\n%cup}";
    let t = parse(src);
    assert_eq!(t.blocks.len(), 2);
    let anns = annotations(&t);
    assert_eq!(anns.len(), 1);
    assert_eq!(text(src, anns[0].name), "sugar");
    assert_eq!(anns[0].quantity, None);
}

#[test]
fn empty_name_sigil_is_text() {
    let src: &[u8] = b"Email me @ home, or @{2} and #.";
    let t = parse(src);
    assert_eq!(annotations(&t).len(), 0);
    assert_eq!(only_step(&t).items.len(), 1);
}

#[test]
fn escaped_sigil_is_text() {
    let src: &[u8] = b"Price \\@salt here";
    let t = parse(src);
    assert_eq!(annotations(&t).len(), 0);
    assert_eq!(only_step(&t).items, vec![Inline::Text(Span { start: 0, end: 17 })]);
}

#[test]
fn sections_comments_and_blank_lines() {
    let src: &[u8] = b"== Dough ==\n\n  -- a note\n= \nKnead.\n";
    let t = parse(src);
    let kinds: Vec<BlockKind> = t.blocks.iter().map(|b| b.kind).collect();
    assert_eq!(
        kinds,
        vec![BlockKind::Section, BlockKind::Blank, BlockKind::Comment, BlockKind::Section, BlockKind::Step]
    );
    assert_eq!(text(src, t.blocks[0].inner), "Dough ==");
    assert_eq!(text(src, t.blocks[2].inner), "-- a note");
    assert_eq!(text(src, t.blocks[3].inner), "");
    assert_eq!(t.blocks[4].span, Span { start: 28, end: 35 });
}

#[test]
fn inline_comments_in_a_step() {
    let src: &[u8] = b"Stir [- slowly -] well -- or not\nNext";
    let t = parse(src);
    assert_eq!(t.blocks.len(), 2);
    let items = &t.blocks[0].items;
    assert_eq!(
        *items,
        vec![
            Inline::Text(Span { start: 0, end: 5 }),
            Inline::Comment(Span { start: 5, end: 17 }),
            Inline::Text(Span { start: 17, end: 23 }),
            Inline::Comment(Span { start: 23, end: 33 }),
        ]
    );
    let open: &[u8] = b"a [- never closed";
    assert_eq!(parse(open).blocks[0].items, vec![Inline::Text(Span { start: 0, end: 17 })]);
}

#[test]
fn scan_annotation_at_a_sigil() {
    let src: &[u8] = b"#pot{} rest";
    let a = scan_annotation(src, 0, src.len()).unwrap();
    assert_eq!(a.span, Span { start: 0, end: 6 });
    assert_eq!(scan_annotation(b"~ x", 0, 3), None);
    assert_eq!(parse_step(b"@a b", 0, 4).len(), 2);
}

#[test]
fn crlf_lines() {
    let src: &[u8] = b"---\r\nk: v\r\n---\r\nAdd @salt.\r\n";
    let t = parse(src);
    assert_eq!(t.blocks.len(), 2);
    assert_eq!(t.blocks[0].kind, BlockKind::Frontmatter);
    let anns = annotations(&t);
    assert_eq!(text(src, anns[0].name), "salt");
    assert_lossless(src);
}

#[test]
fn node_kind_names_are_stable() {
    let all = [
        (NodeKind::Frontmatter, "frontmatter"),
        (NodeKind::Section, "section"),
        (NodeKind::Step, "step"),
        (NodeKind::Blank, "blank"),
        (NodeKind::Ingredient, "ingredient"),
        (NodeKind::Cookware, "cookware"),
        (NodeKind::Timer, "timer"),
        (NodeKind::Quantity, "quantity"),
        (NodeKind::Amount, "amount"),
        (NodeKind::Unit, "unit"),
        (NodeKind::Comment, "comment"),
        (NodeKind::Text, "text"),
    ];
    for (k, name) in all {
        assert_eq!(node_kind_name(k), name);
    }
}

#[test]
fn node_kinds_of_a_parsed_step() {
    let src: &[u8] = b"= S
Put #pot{} on @heat for ~{5%min} -- ok";
    let t = parse(src);
    assert_eq!(kind_of_block(t.blocks[0].kind), NodeKind::Section);
    assert_eq!(kind_of_block(t.blocks[1].kind), NodeKind::Step);
    let kinds: Vec<&str> = t.blocks[1].items.iter().map(|x| node_kind_name(kind_of_inline(x))).collect();
    assert_eq!(
        kinds,
        vec!["text", "cookware", "text", "ingredient", "text", "timer", "text", "comment"]
    );
}

#[test]
fn annotation_parts_nest_inside_it() {
    let src: &[u8] = b"Add @white wine{ 1/2 % cup }.";
    let anns = annotations(&parse(src));
    assert_eq!(anns.len(), 1);
    let a = anns[0];
    assert_eq!(text(src, a.span), "@white wine{ 1/2 % cup }");
    assert_eq!(text(src, a.name), "white wine");
    let q = a.quantity.unwrap();
    assert_eq!(q.amount, Amount::Fraction(1, 2));
    assert_eq!(text(src, q.amount_span), "1/2");
    assert_eq!(text(src, q.unit.unwrap()), "cup");
    assert!(a.name.end < q.amount_span.start && q.amount_span.end < q.unit.unwrap().start);
    assert!(q.unit.unwrap().end < a.span.end);
}
