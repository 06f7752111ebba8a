use std::collections::HashMap;

use petricrab::dsl::{parse, to_dsl, to_markdown, DslError};
use petricrab::model::{ArcKind, PetriNet, PlaceId};

/// `Result::unwrap_err` needs the `Ok` side to be `Debug`, which `PetriNet` is not.
fn expect_err(source: &str) -> Vec<DslError> {
    match parse(source) {
        Ok(_) => panic!("expected a parse error"),
        Err(errors) => errors,
    }
}

fn expect_net(source: &str) -> PetriNet {
    match parse(source) {
        Ok(net) => net,
        Err(errors) => panic!("unexpected errors: {:?}", errors),
    }
}

fn find_transition(net: &PetriNet, label: &str) -> petricrab::model::TransitionId {
    *net.transition_ids().iter().find(|&&t| net.transition_label(t) == label).unwrap()
}

fn reparsed_place(net: &PetriNet, label: &str) -> PlaceId {
    *net.place_ids().iter().find(|&&p| net.place_label(p) == label).unwrap()
}

#[test]
fn happy_path_parses_places_and_transitions() {
    let source = r#"
[places]
"pedido esperando M1" <a>
"M1 inactiva" <d> tokens=1
"M1 operada por F1" <i>

[transitions]
"llega un pedido" <1>: -> @a
"F1 inicia M1" <2>: @a, @d -> @i
"entrega" <10>: @i ->
"#;
    let net = expect_net(source);
    assert_eq!(net.place_ids().len(), 3);
    assert_eq!(net.transition_ids().len(), 3);

    let t2 = find_transition(&net, "F1 inicia M1");
    assert_eq!(net.inputs(t2).len(), 2);
    assert_eq!(net.outputs(t2).len(), 1);

    let source_t = find_transition(&net, "llega un pedido");
    assert!(net.inputs(source_t).is_empty());

    let sink_t = find_transition(&net, "entrega");
    assert!(net.outputs(sink_t).is_empty());
}

#[test]
fn unknown_place_id_reports_error_with_line_number() {
    let source = "[places]\n<a>\n\n[transitions]\n<t>: @a, @z -> @a\n";
    let errors = expect_err(source);
    assert_eq!(errors.len(), 1);
    assert_eq!(errors[0].line, 5);
    assert!(errors[0].message.contains('z'));
}

#[test]
fn content_before_any_section_header_is_error() {
    let source = "a\n[places]\n<a>\n";
    let errors = expect_err(source);
    assert_eq!(errors.len(), 1);
    assert_eq!(errors[0].line, 1);
}

#[test]
fn transition_shaped_line_inside_places_is_error() {
    let source = "[places]\n<t1>: @a -> @b\n";
    let errors = expect_err(source);
    assert_eq!(errors.len(), 1);
    assert_eq!(errors[0].line, 2);
}

#[test]
fn duplicate_place_id_is_error() {
    let source = "[places]\n<a>\n<a>\n";
    let errors = expect_err(source);
    assert_eq!(errors.len(), 1);
    assert_eq!(errors[0].line, 3);
}

#[test]
fn place_without_angle_id_is_error() {
    let source = "[places]\na\n";
    let errors = expect_err(source);
    assert_eq!(errors.len(), 1);
    assert!(errors[0].message.contains("<id>"));
}

#[test]
fn input_without_at_prefix_is_error() {
    let source = "[places]\n<a>\n\n[transitions]\n<t>: a -> \n";
    let errors = expect_err(source);
    assert_eq!(errors.len(), 1);
    assert!(errors[0].message.contains('@'));
}

#[test]
fn input_modifiers_parse_weight_peek_inhibit() {
    let source = "[places]\n<p1>\n<p2>\n<p3>\n\n[transitions]\n<t>: @p1*2, @p2~, @p3!3 -> \n";
    let net = expect_net(source);
    let t = net.transition_ids()[0];
    let inputs: HashMap<PlaceId, ArcKind> = net.inputs(t).iter().copied().collect();
    let labels: HashMap<&str, ArcKind> = inputs.iter().map(|(&p, &k)| (net.place_label(p), k)).collect();
    assert_eq!(labels["p1"], ArcKind::Consume(2));
    assert_eq!(labels["p2"], ArcKind::Peek(1));
    assert_eq!(labels["p3"], ArcKind::Inhibit(3));
}

#[test]
fn output_weight_modifier_parses() {
    let source = "[places]\n<p>\n<q>\n\n[transitions]\n<t>: @p -> @q*3\n";
    let net = expect_net(source);
    let t = net.transition_ids()[0];
    assert_eq!(net.outputs(t)[0].1, 3);
}

#[test]
fn errors_across_document_are_all_collected_not_just_first() {
    let source = "[places]\n<a>\n\n[transitions]\n<t1>: @a, @z -> @a\n<t2>: @a, @w -> @a\n";
    let errors = expect_err(source);
    assert_eq!(errors.len(), 2);
    assert_eq!(errors[0].line, 5);
    assert_eq!(errors[1].line, 6);
}

#[test]
fn to_dsl_then_parse_round_trips_structure() {
    let mut net = PetriNet::new();
    let p1 = net.add_place("p1");
    let p2 = net.add_place("p2");
    net.set_tokens(p1, 4);
    let t = net.add_transition("t1");
    net.add_arc_place_to_transition(p1, t, ArcKind::Peek(2)).unwrap();
    net.add_arc_transition_to_place(t, p2, 3).unwrap();

    let source = to_dsl(&net);
    let reparsed = expect_net(&source);

    assert_eq!(reparsed.place_ids().len(), net.place_ids().len());
    assert_eq!(reparsed.transition_ids().len(), net.transition_ids().len());
    let rt = reparsed.transition_ids()[0];
    assert_eq!(reparsed.inputs(rt), &[(reparsed_place(&reparsed, "p1"), ArcKind::Peek(2))]);
    assert_eq!(reparsed.outputs(rt), &[(reparsed_place(&reparsed, "p2"), 3)]);
    assert_eq!(reparsed.tokens(reparsed_place(&reparsed, "p1")), 4);
}

#[test]
fn to_dsl_writes_labels_ids_tokens_and_arc_modifiers() {
    let mut net = PetriNet::new();
    let a = net.add_place("a");
    let b = net.add_place("x>y");
    net.set_tokens(b, 12);
    let t = net.add_transition("");
    net.add_arc_place_to_transition(a, t, ArcKind::Consume(1)).unwrap();
    net.add_arc_place_to_transition(b, t, ArcKind::Inhibit(1)).unwrap();
    net.add_arc_transition_to_place(t, a, 2).unwrap();
    let u = net.add_transition("u");
    net.add_arc_place_to_transition(a, u, ArcKind::Peek(3)).unwrap();
    net.add_arc_place_to_transition(b, u, ArcKind::Consume(5)).unwrap();
    assert_eq!(
        to_dsl(&net),
        "[places]\n<a>\n\"x>y\" <p1> tokens=12\n\n[transitions]\n\"\" <t0>: @a, @p1! -> @a*2\n<u>: @a~3, @p1*5 -> \n"
    );
}

#[test]
fn to_markdown_lists_pre_and_post_places() {
    let mut net = PetriNet::new();
    let a = net.add_place("a");
    let b = net.add_place("b");
    let t = net.add_transition("t");
    net.add_arc_place_to_transition(a, t, ArcKind::Consume(1)).unwrap();
    net.add_arc_place_to_transition(b, t, ArcKind::Peek(1)).unwrap();
    let _u = net.add_transition("u");
    let v = net.add_transition("v");
    net.add_arc_transition_to_place(v, b, 1).unwrap();
    assert_eq!(
        to_markdown(&net),
        "| Transición | Entradas (pre) | Salidas (post) |\n| --- | --- | --- |\n| t | a, b | — |\n| u | — | — |\n| v | — | b |\n"
    );
}

#[test]
fn every_error_kind_of_a_line_is_reported() {
    let cases: [(&str, &str); 14] = [
        ("[places]\n\"a <a>\n", "comilla sin cerrar"),
        ("[places]\n<a\n", "falta '>' después del id"),
        ("[places]\n< >\n", "id vacío en <...>"),
        ("[places]\n<a> tok\n", "texto inesperado \"tok\""),
        ("[places]\n<a> tokens=x\n", "tokens inválido \"x\""),
        ("[places]\n<a> tokens=4294967296\n", "tokens inválido \"4294967296\""),
        ("[transitions]\n<t>\n", "falta ':' (forma de lugar dentro de [transitions])"),
        ("[transitions]\n<t> x: ->\n", "texto inesperado \"x\" antes de ':'"),
        ("[transitions]\n<t>: @a\n", "falta '->'"),
        ("[transitions]\n<t>: -> @a -> @b\n", "más de un '->' en la línea"),
        ("[transitions]\n<t>: @a, , @b ->\n", "elemento vacío en la lista"),
        ("[transitions]\n<t>: @a*x ->\n", "peso inválido \"x\""),
        ("[transitions]\n<t>: -> @a~2\n", "modificador '~' inválido en salida"),
        ("[transitions]\n<t>: b ->\n", "falta '@' antes de \"b\""),
    ];
    for (source, message) in cases.iter() {
        let errors = expect_err(source);
        assert_eq!(errors.len(), 1, "{source}");
        assert_eq!(errors[0].line, 2, "{source}");
        assert_eq!(errors[0].message, *message, "{source}");
    }
}

#[test]
fn repeated_arcs_and_unknown_places_are_reported_in_line_order() {
    let source = "[transitions]\n<t>: @a, @a -> @a, @a, @q\n[places]\n<a> tokens=+7 # seven\n<a>\n";
    let errors = expect_err(source);
    let got: Vec<(usize, &str)> = errors.iter().map(|e| (e.line, e.message.as_str())).collect();
    assert_eq!(
        got,
        vec![
            (2, "lugar \"a\" repetido como entrada"),
            (2, "lugar \"a\" repetido como salida"),
            (2, "lugar desconocido \"q\""),
            (5, "lugar \"a\" declarado más de una vez"),
        ]
    );
}

#[test]
fn comments_blank_lines_and_crlf_are_ignored() {
    let source = "# a net\r\n[places]\r\n  \"uno\" <1> tokens= 3  # three\r\n\r\n[transitions]\r\n<t>: @1~ -> @1\r\n";
    let net = expect_net(source);
    let p = net.place_ids()[0];
    assert_eq!(net.place_label(p), "uno");
    assert_eq!(net.tokens(p), 3);
    let t = net.transition_ids()[0];
    assert_eq!(net.transition_label(t), "t");
    assert_eq!(net.inputs(t), &[(p, ArcKind::Peek(1))]);
    assert_eq!(net.outputs(t), &[(p, 1)]);
}

#[test]
fn plain_labelled_net_reads_back_with_every_arc_kind() {
    let mut net = PetriNet::new();
    let a = net.add_place("M1 inactiva");
    let b = net.add_place("b");
    let c = net.add_place("c");
    net.set_tokens(a, 7);
    let t = net.add_transition("F1 inicia M1");
    net.add_arc_place_to_transition(a, t, ArcKind::Consume(1)).unwrap();
    net.add_arc_place_to_transition(b, t, ArcKind::Peek(1)).unwrap();
    net.add_arc_place_to_transition(c, t, ArcKind::Inhibit(0)).unwrap();
    net.add_arc_transition_to_place(t, b, 1).unwrap();
    net.add_arc_transition_to_place(t, c, 2).unwrap();
    let u = net.add_transition("u");
    net.add_arc_place_to_transition(b, u, ArcKind::Consume(3)).unwrap();
    let z = net.add_transition("z");
    net.add_arc_transition_to_place(z, a, 1).unwrap();

    let source = to_dsl(&net);
    let back = expect_net(&source);
    assert_eq!(back.place_ids().len(), 3);
    assert_eq!(back.transition_ids().len(), 3);
    let (ra, rb, rc) = (reparsed_place(&back, "M1 inactiva"), reparsed_place(&back, "b"), reparsed_place(&back, "c"));
    assert_eq!(back.tokens(ra), 7);
    assert_eq!(back.tokens(rb), 0);
    let rt = find_transition(&back, "F1 inicia M1");
    assert_eq!(back.inputs(rt), &[(ra, ArcKind::Consume(1)), (rb, ArcKind::Peek(1)), (rc, ArcKind::Inhibit(0))]);
    assert_eq!(back.outputs(rt), &[(rb, 1), (rc, 2)]);
    let ru = find_transition(&back, "u");
    assert_eq!(back.inputs(ru), &[(rb, ArcKind::Consume(3))]);
    assert!(back.outputs(ru).is_empty());
    let rz = find_transition(&back, "z");
    assert!(back.inputs(rz).is_empty());
    assert_eq!(back.outputs(rz), &[(ra, 1)]);
    assert_eq!(to_dsl(&back), source);
}

#[test]
fn labels_written_in_quotes_read_back() {
    let mut net = PetriNet::new();
    let a = net.add_place("x>y");
    let b = net.add_place("");
    let c = net.add_place("a,b");
    net.set_tokens(a, 2);
    let t = net.add_transition("go > now");
    net.add_arc_place_to_transition(a, t, ArcKind::Inhibit(3)).unwrap();
    net.add_arc_transition_to_place(t, b, 1).unwrap();
    let source = to_dsl(&net);
    assert_eq!(source, "[places]\n\"x>y\" <p0> tokens=2\n\"\" <p1>\n\"a,b\" <p2>\n\n[transitions]\n\"go > now\" <t0>: @p0!3 -> @p1\n");
    let back = expect_net(&source);
    let (ra, rb, rc) = (reparsed_place(&back, "x>y"), reparsed_place(&back, ""), reparsed_place(&back, "a,b"));
    assert_eq!(back.tokens(ra), 2);
    assert_eq!(back.tokens(rc), 0);
    let rt = find_transition(&back, "go > now");
    assert_eq!(back.inputs(rt), &[(ra, ArcKind::Inhibit(3))]);
    assert_eq!(back.outputs(rt), &[(rb, 1)]);
    assert_eq!(to_dsl(&back), source);
}

#[test]
fn shared_labels_get_ids_of_their_own_and_read_back() {
    let mut net = PetriNet::new();
    let a = net.add_place("a");
    let b = net.add_place("a");
    let c = net.add_place("p0");
    net.set_tokens(b, 5);
    let t = net.add_transition("go");
    let u = net.add_transition("go");
    net.add_arc_place_to_transition(a, t, ArcKind::Consume(2)).unwrap();
    net.add_arc_transition_to_place(t, b, 1).unwrap();
    net.add_arc_place_to_transition(c, u, ArcKind::Peek(1)).unwrap();
    let source = to_dsl(&net);
    assert_eq!(
        source,
        "[places]\n\"a\" <p0>\n\"a\" <p1> tokens=5\n\"p0\" <p2>\n\n[transitions]\n\"go\" <t0>: @p0*2 -> @p1\n\"go\" <t1>: @p2~ -> \n"
    );
    let back = expect_net(&source);
    let ps = back.place_ids();
    assert_eq!(ps.len(), 3);
    assert_eq!(back.place_label(ps[0]), "a");
    assert_eq!(back.place_label(ps[1]), "a");
    assert_eq!(back.place_label(ps[2]), "p0");
    assert_eq!(back.tokens(ps[1]), 5);
    let ts = back.transition_ids();
    assert_eq!(back.inputs(ts[0]), &[(ps[0], ArcKind::Consume(2))]);
    assert_eq!(back.outputs(ts[0]), &[(ps[1], 1)]);
    assert_eq!(back.inputs(ts[1]), &[(ps[2], ArcKind::Peek(1))]);
}

#[test]
fn a_label_the_format_cannot_carry_reads_back_as_its_id() {
    let mut net = PetriNet::new();
    let a = net.add_place("a#b");
    let b = net.add_place("x: y");
    net.set_tokens(a, 1);
    let t = net.add_transition("t#1 > now");
    net.add_arc_place_to_transition(a, t, ArcKind::Consume(1)).unwrap();
    net.add_arc_transition_to_place(t, b, 3).unwrap();
    let source = to_dsl(&net);
    assert_eq!(source, "[places]\n<p0> tokens=1\n<p1>\n\n[transitions]\n<t0>: @p0 -> @p1*3\n");
    let back = expect_net(&source);
    let ps = back.place_ids();
    assert_eq!(back.place_label(ps[0]), "p0");
    assert_eq!(back.tokens(ps[0]), 1);
    let ts = back.transition_ids();
    assert_eq!(back.inputs(ts[0]), &[(ps[0], ArcKind::Consume(1))]);
    assert_eq!(back.outputs(ts[0]), &[(ps[1], 3)]);
}
