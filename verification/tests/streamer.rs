use pdf_view::content::graphics::ClippingRule;
use pdf_view::content::streamer::{ContentStreamer, Operation, Scope, TjItem};
use pdf_view::content::tokenizer::{tokenize_stream, Token};
use pdf_view::fonts::FontLib;
use pdf_view::pdf::ast::{ColourSpace, ColourSpaceLib, PageCtx, XObjectLib};

fn dummy_ctx() -> PageCtx {
    PageCtx {
        width: b"500".to_vec(),
        height: b"500".to_vec(),
        font_lib: FontLib::new(),
        cs_lib: ColourSpaceLib::empty(),
        xobj_lib: XObjectLib::new(),
    }
}

fn run(ctx: &PageCtx, toks: &Vec<Token>) -> Option<Vec<Operation>> {
    ContentStreamer::try_process_stream(ctx, toks)
}

fn step_all<'a>(ctx: &PageCtx, toks: &'a Vec<Token>) -> (Vec<Operation>, ContentStreamer<'a>) {
    let mut streamer = ContentStreamer::new(toks);
    let mut ops = Vec::new();
    while streamer.has_next() {
        ops.push(streamer.try_advance(ctx).expect("the operator runs"));
    }
    (ops, streamer)
}

fn nums(v: &[&str]) -> Vec<Vec<u8>> {
    v.iter().map(|s| s.as_bytes().to_vec()).collect()
}

#[test]
fn saved_graphics() {
    let ctx = dummy_ctx();
    let vv = vec![
        Token::SaveGraphicsState,
        Token::RestoreGraphicsState,
        Token::SaveGraphicsState,
        Token::RestoreGraphicsState,
    ];
    let ops = run(&ctx, &vv).unwrap();
    assert_eq!(
        ops,
        vec![Operation::Save, Operation::Restore, Operation::Save, Operation::Restore]
    );
    let (_, fstate) = step_all(&ctx, &vv);
    assert_eq!(fstate.fill_colour_space(), None);
    assert_eq!(fstate.saved_count(), 0);
    let unbalanced = vec![Token::SaveGraphicsState, Token::RestoreGraphicsState, Token::RestoreGraphicsState];
    assert!(run(&ctx, &unbalanced).is_none());
}

#[test]
fn simple_colour() {
    let mut ctx = dummy_ctx();
    ctx.cs_lib.add_cs(b"Cs1".to_vec(), ColourSpace { num_components: 1 });
    let toks = vec![
        Token::Identifier(b"Cs1".to_vec()),
        Token::CsNoStroke,
        Token::Number(b"0.2".to_vec()),
        Token::SetColourNoStroke,
    ];
    let ops = run(&ctx, &toks).unwrap();
    assert_eq!(ops.len(), 4);
    assert_eq!(ops[3], Operation::SetFillColour(nums(&["0.2"])));
    assert!(ops[..3].iter().all(|o| *o == Operation::Noop));
    let (stepped, streamer) = step_all(&ctx, &toks);
    assert_eq!(stepped, ops);
    assert_eq!(streamer.fill_colour_space(), Some(&b"Cs1".to_vec()));
}

#[test]
fn streamer_state() {
    let ctx = dummy_ctx();
    let toks = vec![Token::BT];
    let ops = run(&ctx, &toks).unwrap();
    assert_eq!(ops, vec![Operation::Noop]);
    let (_, fstate) = step_all(&ctx, &toks);
    assert!(matches!(fstate.current_scope(), Some(Scope::Text)));
    assert_eq!(run(&ctx, &vec![Token::BT, Token::ET]).unwrap()[1], Operation::EndText);
    assert!(run(&ctx, &vec![Token::ET]).is_none());
}

#[test]
fn colour_needs_a_known_space_and_enough_numbers() {
    let mut ctx = dummy_ctx();
    ctx.cs_lib.add_cs(b"Cs3".to_vec(), ColourSpace { num_components: 3 });
    assert!(run(&ctx, &tokenize_stream(b"0.5 sc".to_vec())).is_none());
    assert!(run(&ctx, &tokenize_stream(b"/Cs9 cs 0.5 sc".to_vec())).is_none());
    assert!(run(&ctx, &tokenize_stream(b"/Cs3 cs 0.5 0.2 sc".to_vec())).is_none());
    let ops = run(&ctx, &tokenize_stream(b"/Cs3 cs 1 0.5 0 sc".to_vec())).unwrap();
    assert_eq!(ops[5], Operation::SetFillColour(nums(&["1", "0.5", "0"])));
    let ops = run(&ctx, &tokenize_stream(b"/Cs3 cs q /Other cs Q 1 2 3 sc".to_vec())).unwrap();
    assert_eq!(ops.last().unwrap(), &Operation::SetFillColour(nums(&["1", "2", "3"])));
}

#[test]
fn path_operators_hand_over_their_numerals() {
    let ctx = dummy_ctx();
    let ops = run(&ctx, &tokenize_stream(b"1 0 0 -1 0 792 cm 0 0 612 792 re W n 10 20 m 30 40 l h f 0.5 g".to_vec())).unwrap();
    let drawn: Vec<&Operation> = ops.iter().filter(|o| **o != Operation::Noop).collect();
    assert_eq!(
        drawn,
        vec![
            &Operation::Concat(nums(&["1", "0", "0", "-1", "0", "792"])),
            &Operation::Rect(nums(&["0", "0", "612", "792"])),
            &Operation::Clip(ClippingRule::Winding),
            &Operation::EndPath,
            &Operation::MoveTo(nums(&["10", "20"])),
            &Operation::LineTo(nums(&["30", "40"])),
            &Operation::ClosePath,
            &Operation::Fill,
            &Operation::FillGray(nums(&["0.5"])),
        ]
    );
    assert!(run(&ctx, &tokenize_stream(b"10 m".to_vec())).is_none());
    assert!(run(&ctx, &tokenize_stream(b"/A 10 m".to_vec())).is_none());
}

#[test]
fn text_needs_a_font_with_widths() {
    let ctx = dummy_ctx();
    assert!(run(&ctx, &tokenize_stream(b"BT (Hi) Tj ET".to_vec())).is_none());
    assert!(run(&ctx, &tokenize_stream(b"BT /F1 12 Tf (Hi) Tj ET".to_vec())).is_none());
    let ops = run(&ctx, &tokenize_stream(b"BT /F1 12 Tf () Tj [-250] TJ ET".to_vec())).unwrap();
    assert_eq!(
        ops,
        vec![
            Operation::Noop,
            Operation::Noop,
            Operation::Noop,
            Operation::SetFont { font: b"F1".to_vec(), size: b"12".to_vec() },
            Operation::Noop,
            Operation::ShowText(vec![]),
            Operation::Noop,
            Operation::ShowArray(vec![TjItem::Adjust(b"-250".to_vec())]),
            Operation::EndText,
        ]
    );
}

#[test]
fn blocks_close_in_order() {
    let ctx = dummy_ctx();
    assert!(run(&ctx, &tokenize_stream(b"/P BMC BT EMC ET".to_vec())).is_none());
    assert!(run(&ctx, &tokenize_stream(b"/P BMC BT ET EMC".to_vec())).is_some());
    assert!(run(&ctx, &tokenize_stream(b"/P <</MCID 0>> BDC EMC".to_vec())).is_some());
    assert!(run(&ctx, &tokenize_stream(b"EMC".to_vec())).is_none());
    assert!(run(&ctx, &tokenize_stream(b"S".to_vec())).is_none());
}

#[test]
fn the_top_level_is_never_closed() {
    let ctx = dummy_ctx();
    let toks = vec![
        Token::BT,
        Token::ET,
        Token::Identifier(b"Span".to_vec()),
        Token::BMC,
        Token::EMC,
    ];
    let (ops, fstate) = step_all(&ctx, &toks);
    assert_eq!(ops.len(), 5);
    assert!(matches!(fstate.current_scope(), Some(Scope::TopLevel)));
    let mut streamer = ContentStreamer::new(&toks);
    streamer.try_advance(&ctx);
    streamer.try_advance(&ctx);
    assert!(matches!(streamer.current_scope(), Some(Scope::TopLevel)));
    let closers = vec![Token::ET, Token::EMC];
    let mut streamer = ContentStreamer::new(&closers);
    assert_eq!(streamer.try_advance(&ctx), None);
    assert_eq!(streamer.try_advance(&ctx), None);
    assert!(matches!(streamer.current_scope(), Some(Scope::TopLevel)));
}

#[test]
fn advance_runs_an_operator_that_can_run() {
    let ctx = dummy_ctx();
    let toks = vec![Token::SaveGraphicsState, Token::BT];
    let mut streamer = ContentStreamer::new(&toks);
    assert_eq!(streamer.advance(&ctx), Operation::Save);
    assert_eq!(streamer.advance(&ctx), Operation::Noop);
    assert_eq!(streamer.saved_count(), 1);
    assert!(!streamer.has_next());
}

#[test]
fn even_odd_clips_as_the_winding_clip_does() {
    let ctx = dummy_ctx();
    let ops = run(&ctx, &tokenize_stream(b"0 0 10 10 re W* n".to_vec())).unwrap();
    assert_eq!(ops[5], Operation::Clip(ClippingRule::Winding));
    let w = run(&ctx, &tokenize_stream(b"0 0 10 10 re W n".to_vec())).unwrap();
    assert_eq!(ops, w);
}

#[test]
fn marked_content_keeps_its_tag_and_properties() {
    let ctx = dummy_ctx();
    let toks = tokenize_stream(b"/Span << /MCID 0 >> BDC".to_vec());
    let (_, streamer) = step_all(&ctx, &toks);
    match streamer.current_scope() {
        Some(Scope::MarkedContent { tag, dict: Some(d) }) => {
            assert_eq!(tag.as_slice(), b"Span");
            assert_eq!(d.len(), 1);
        },
        other => panic!("expected marked content, got {:?}", other),
    }
    let toks = tokenize_stream(b"/Artifact BMC".to_vec());
    let (_, streamer) = step_all(&ctx, &toks);
    match streamer.current_scope() {
        Some(Scope::MarkedContent { tag, dict: None }) => assert_eq!(tag.as_slice(), b"Artifact"),
        other => panic!("expected marked content, got {:?}", other),
    }
}

#[test]
fn restoring_gives_back_the_colour_space_of_the_matching_save() {
    let mut ctx = dummy_ctx();
    ctx.cs_lib.add_cs(b"Cs1".to_vec(), ColourSpace { num_components: 1 });
    ctx.cs_lib.add_cs(b"Cs2".to_vec(), ColourSpace { num_components: 1 });
    let toks = tokenize_stream(b"/Cs1 cs q /Cs2 cs q Q /Cs2 cs Q".to_vec());
    let (_, streamer) = step_all(&ctx, &toks);
    assert_eq!(streamer.fill_colour_space(), Some(&b"Cs1".to_vec()));
    assert_eq!(streamer.saved_count(), 0);
}

#[test]
fn steps_that_cannot_run_are_refused() {
    let ctx = dummy_ctx();
    assert!(run(&ctx, &vec![Token::RestoreGraphicsState]).is_none());
    assert!(run(&ctx, &vec![Token::ET]).is_none());
    assert!(run(&ctx, &vec![Token::EMC]).is_none());
    assert!(run(&ctx, &vec![Token::BT, Token::EMC]).is_none());
    assert!(run(&ctx, &tokenize_stream(b"1 2 3 re".to_vec())).is_none());
    assert!(run(&ctx, &tokenize_stream(b"1 2 /X 4 re".to_vec())).is_none());
    assert!(run(&ctx, &tokenize_stream(b"1 2 3 4 re".to_vec())).is_some());
}
