//! Writing a net as a document and reading the document back gives the same
//! net, for nets whose labels the format can carry.
use vstd::prelude::*;

use crate::analysis::{in_slot_order, place_order, position, transition_order};
use crate::dsl::{
    arc_errors, arrow_at, by_line, clean_line, describes, distinct_ids, doc_lines, doc_scan, dsl_errors, dsl_fits, dsl_places,
    dsl_text, dsl_transitions, find_arrow, find_modifier, has_arc_id, has_id, head_text, holds_declarations, id_index,
    input_item, input_items, input_list, input_pass, input_text, inputs_text, is_modifier, joined, keyed_inputs,
    keyed_outputs, label_and_id, lemma_find_arrow, lemma_find_modifier, lemma_id_index, list_items, on_line, output_item, place_written_id,
    output_items, output_list, output_pass, output_text, outputs_text, pieces, place_line, place_pass, places_text, scan,
    scan_line, transition_line, transitions_text, valid_id, weight_of, weight_text, written_id, generated_form, own_id, place_id_of, place_labels, transition_id_of, transition_labels, usable_as_id, place_label_shown, transition_label_shown, shown_label, PlaceDecl, Section,
    TransitionDecl,
};
use crate::model::{ArcKind, ModelView, PlaceId};
use crate::project::lemma_positions;
use crate::text::{
    decimal, find_char, is_digit, is_ws, lemma_decimal_parses, lemma_find_char, parse_u32_spec, trim, trim_end, trim_start,
};

verus! {

/// Splitting a concatenation: the last piece of `a` joins the first of `b`.
pub proof fn lemma_pieces_concat(a: Seq<char>, b: Seq<char>, sep: char)
    ensures
        pieces(a + b, sep) == pieces(a, sep).drop_last() + seq![pieces(a, sep).last() + pieces(b, sep)[0]] + pieces(b, sep).drop_first(),
    decreases b.len(),
{
    lemma_pieces_len(a, sep);
    lemma_pieces_len(b, sep);
    if b.len() == 0 {
        assert(a + b =~= a);
        assert(pieces(b, sep) == seq![Seq::<char>::empty()]);
        assert(pieces(a, sep).last() + Seq::<char>::empty() =~= pieces(a, sep).last());
        assert(pieces(a, sep).drop_last() + seq![pieces(a, sep).last()] =~= pieces(a, sep));
        assert(pieces(b, sep).drop_first() =~= Seq::<Seq<char>>::empty());
    } else {
        let b1 = b.drop_last();
        let c = b.last();
        lemma_pieces_concat(a, b1, sep);
        lemma_pieces_len(b1, sep);
        assert((a + b).drop_last() =~= a + b1);
        assert((a + b).last() == c);
        let pa = pieces(a, sep);
        let pb1 = pieces(b1, sep);
        let lhs1 = pieces(a + b1, sep);
        if c == sep {
            assert(pieces(b, sep) == pb1.push(Seq::empty()));
            assert(pieces(b, sep)[0] == pb1[0]);
            assert(pieces(b, sep).drop_first() =~= pb1.drop_first().push(Seq::empty()));
            assert(pieces(a + b, sep) == lhs1.push(Seq::empty()));
            assert(pieces(a + b, sep) =~= pa.drop_last() + seq![pa.last() + pieces(b, sep)[0]] + pieces(b, sep).drop_first());
        } else {
            assert(pieces(b, sep) == pb1.update(pb1.len() - 1, pb1.last().push(c)));
            assert(pieces(a + b, sep) == lhs1.update(lhs1.len() - 1, lhs1.last().push(c)));
            if pb1.len() == 1 {
                assert(pieces(b, sep)[0] == pb1[0].push(c));
                assert(pieces(b, sep).drop_first() =~= Seq::<Seq<char>>::empty());
                assert(pb1.drop_first() =~= Seq::<Seq<char>>::empty());
                assert(lhs1.last() == pa.last() + pb1[0]);
                assert((pa.last() + pb1[0]).push(c) =~= pa.last() + pb1[0].push(c));
                assert(pieces(a + b, sep) =~= pa.drop_last() + seq![pa.last() + pieces(b, sep)[0]] + pieces(b, sep).drop_first());
            } else {
                assert(pieces(b, sep)[0] == pb1[0]);
                assert(pieces(b, sep).drop_first() =~= pb1.drop_first().update(pb1.len() - 2, pb1.last().push(c)));
                assert(lhs1.last() == pb1.last());
                assert(pieces(a + b, sep) =~= pa.drop_last() + seq![pa.last() + pieces(b, sep)[0]] + pieces(b, sep).drop_first());
            }
        }
    }
}

/// There is always at least one piece.
pub proof fn lemma_pieces_len(s: Seq<char>, sep: char)
    ensures
        pieces(s, sep).len() >= 1,
    decreases s.len(),
{
    if s.len() > 0 {
        lemma_pieces_len(s.drop_last(), sep);
    }
}

/// Text without the separator is one piece.
pub proof fn lemma_pieces_single(s: Seq<char>, sep: char)
    requires
        !s.contains(sep),
    ensures
        pieces(s, sep) == seq![s],
    decreases s.len(),
{
    if s.len() > 0 {
        let d = s.drop_last();
        assert(!d.contains(sep)) by {
            if d.contains(sep) {
                let i = choose|i: int| 0 <= i < d.len() && d[i] == sep;
                assert(s[i] == sep);
            }
        };
        lemma_pieces_single(d, sep);
        assert(s.last() != sep) by {
            assert(s[s.len() - 1] == s.last());
        };
        assert(d.push(s.last()) =~= s);
    } else {
        assert(s =~= Seq::<char>::empty());
    }
}

/// Splitting at a separator between two texts.
pub proof fn lemma_pieces_join(a: Seq<char>, b: Seq<char>, sep: char)
    ensures
        pieces(a + seq![sep] + b, sep) == pieces(a, sep) + pieces(b, sep),
{
    let a1 = a + seq![sep];
    lemma_pieces_concat(a1, b, sep);
    lemma_pieces_len(a, sep);
    lemma_pieces_len(b, sep);
    assert(a1.drop_last() =~= a);
    assert(pieces(a1, sep) == pieces(a, sep).push(Seq::empty()));
    assert(Seq::<char>::empty() + pieces(b, sep)[0] =~= pieces(b, sep)[0]);
    assert(pieces(a1, sep).drop_last() + seq![pieces(b, sep)[0]] + pieces(b, sep).drop_first() =~= pieces(a, sep) + pieces(b, sep));
}

/// The text of the lines `xs`, each ended by a line break.
pub open spec fn lines_text(xs: Seq<Seq<char>>) -> Seq<char>
    decreases xs.len(),
{
    if xs.len() == 0 {
        Seq::empty()
    } else {
        lines_text(xs.drop_last()) + xs.last() + "\n"@
    }
}

/// The text of two runs of lines is the text of the first, then of the second.
pub proof fn lemma_lines_text_add(a: Seq<Seq<char>>, b: Seq<Seq<char>>)
    ensures
        lines_text(a + b) == lines_text(a) + lines_text(b),
    decreases b.len(),
{
    if b.len() == 0 {
        assert(a + b =~= a);
        assert(lines_text(a) + Seq::<char>::empty() =~= lines_text(a));
    } else {
        lemma_lines_text_add(a, b.drop_last());
        assert((a + b).drop_last() =~= a + b.drop_last());
        assert((a + b).last() == b.last());
        assert(lines_text(a) + lines_text(b.drop_last()) + b.last() + "\n"@ =~= lines_text(a) + (lines_text(b.drop_last()) + b.last() + "\n"@));
    }
}

/// Splitting at line breaks the text of lines without breaks gives those lines back.
pub proof fn lemma_lines_pieces(xs: Seq<Seq<char>>, rest: Seq<char>)
    requires
        forall|i: int| 0 <= i < xs.len() ==> !(#[trigger] xs[i]).contains('\n'),
    ensures
        pieces(lines_text(xs) + rest, '\n') == xs + pieces(rest, '\n'),
    decreases xs.len(),
{
    reveal_strlit("\n");
    if xs.len() == 0 {
        assert(Seq::<char>::empty() + rest =~= rest);
        assert(xs + pieces(rest, '\n') =~= pieces(rest, '\n'));
    } else {
        let ys = xs.drop_last();
        let x = xs.last();
        assert(x == xs[xs.len() - 1]);
        assert(lines_text(xs) + rest =~= lines_text(ys) + (x + seq!['\n'] + rest));
        lemma_lines_pieces(ys, x + seq!['\n'] + rest);
        lemma_pieces_join(x, rest, '\n');
        lemma_pieces_single(x, '\n');
        assert(ys + (seq![x] + pieces(rest, '\n')) =~= xs + pieces(rest, '\n'));
    }
}

/// The line written for the `i`-th place of `v`, without its line break.
pub open spec fn place_row(v: ModelView, i: int) -> Seq<char> {
    let k = place_order(v)[i];
    let d = v.places[k];
    head_text(place_label_shown(v, i), place_id_of(v, i)) + (if d.tokens == 0 {
        Seq::empty()
    } else {
        " tokens="@ + decimal(d.tokens as nat)
    })
}

/// The line written for the `j`-th transition of `v`, without its line break.
pub open spec fn transition_row(v: ModelView, j: int) -> Seq<char> {
    let t = transition_order(v)[j];
    let label = v.transitions[t].label@;
    head_text(transition_label_shown(v, j), transition_id_of(v, j)) + ": "@ + joined(inputs_text(v, t)) + " -> "@ + joined(outputs_text(v, t))
}

/// The place lines of `v`.
pub open spec fn place_rows(v: ModelView) -> Seq<Seq<char>> {
    Seq::new(place_order(v).len(), |i: int| place_row(v, i))
}

/// The transition lines of `v`.
pub open spec fn transition_rows(v: ModelView) -> Seq<Seq<char>> {
    Seq::new(transition_order(v).len(), |j: int| transition_row(v, j))
}

/// The lines of the document written for `v`, but for the empty one after the last break.
pub open spec fn doc_rows(v: ModelView) -> Seq<Seq<char>> {
    seq!["[places]"@] + place_rows(v) + seq![Seq::empty(), "[transitions]"@] + transition_rows(v)
}

proof fn lemma_places_text(v: ModelView, n: nat)
    ensures
        places_text(v, n) == lines_text(Seq::new(n, |i: int| place_row(v, i))),
    decreases n,
{
    if n > 0 {
        lemma_places_text(v, (n - 1) as nat);
        assert(Seq::new(n, |i: int| place_row(v, i)).drop_last() =~= Seq::new((n - 1) as nat, |i: int| place_row(v, i)));
    } else {
        assert(Seq::new(n, |i: int| place_row(v, i)) =~= Seq::<Seq<char>>::empty());
    }
}

proof fn lemma_transitions_text(v: ModelView, n: nat)
    ensures
        transitions_text(v, n) == lines_text(Seq::new(n, |j: int| transition_row(v, j))),
    decreases n,
{
    if n > 0 {
        lemma_transitions_text(v, (n - 1) as nat);
        assert(Seq::new(n, |j: int| transition_row(v, j)).drop_last() =~= Seq::new((n - 1) as nat, |j: int| transition_row(v, j)));
    } else {
        assert(Seq::new(n, |j: int| transition_row(v, j)) =~= Seq::<Seq<char>>::empty());
    }
}

/// The document written for `v` is its lines, each ended by a break.
proof fn lemma_dsl_text_rows(v: ModelView)
    ensures
        dsl_text(v) == lines_text(doc_rows(v)),
{
    reveal_strlit("[places]\n");
    reveal_strlit("[places]");
    reveal_strlit("\n[transitions]\n");
    reveal_strlit("[transitions]");
    reveal_strlit("\n");
    lemma_places_text(v, place_order(v).len());
    lemma_transitions_text(v, transition_order(v).len());
    let a = seq!["[places]"@];
    let b = place_rows(v);
    let c = seq![Seq::<char>::empty(), "[transitions]"@];
    let d = transition_rows(v);
    lemma_lines_text_add(a + b + c, d);
    lemma_lines_text_add(a + b, c);
    lemma_lines_text_add(a, b);
    assert(a.drop_last() =~= Seq::<Seq<char>>::empty());
    assert(lines_text(a.drop_last()) == Seq::<char>::empty());
    assert(lines_text(a) =~= "[places]\n"@);
    assert(c.drop_last() =~= seq![Seq::<char>::empty()]);
    assert(c.drop_last().drop_last() =~= Seq::<Seq<char>>::empty());
    assert(lines_text(c.drop_last().drop_last()) == Seq::<char>::empty());
    assert(lines_text(c.drop_last()) =~= "\n"@);
    assert(lines_text(c) =~= "\n[transitions]\n"@);
    assert(dsl_text(v) =~= lines_text(a) + lines_text(b) + lines_text(c) + lines_text(d));
}

/// `c` may stand in a label that is written as the node's own id: it does not
/// close the id, start a comment, end the head of a transition or break the line.
pub open spec fn id_char(c: char) -> bool {
    c != '>' && c != '#' && c != ':' && c != '\n'
}

/// `c` may stand in a place's id, which is also written in arc lists: moreover
/// no comma and no arc modifier.
pub open spec fn place_id_char(c: char) -> bool {
    id_char(c) && c != ',' && !is_modifier(c)
}

/// A label written as its own id and read back as it is: not empty, no white
/// space at either end, and only characters that may stand in an id.
pub open spec fn plain_label(s: Seq<char>) -> bool {
    &&& s.len() > 0
    &&& !is_ws(s[0])
    &&& !is_ws(s.last())
    &&& forall|i: int| 0 <= i < s.len() ==> id_char(#[trigger] s[i])
}

/// A plain label that may also stand in arc lists.
pub open spec fn plain_place_label(s: Seq<char>) -> bool {
    &&& plain_label(s)
    &&& forall|i: int| 0 <= i < s.len() ==> place_id_char(#[trigger] s[i])
}

/// `s` has no character `c`.
proof fn lemma_add_avoids(a: Seq<char>, b: Seq<char>, c: char)
    requires
        !a.contains(c),
        !b.contains(c),
    ensures
        !(a + b).contains(c),
{
    assert forall|i: int| 0 <= i < (a + b).len() implies (a + b)[i] != c by {
        if i < a.len() {
            assert((a + b)[i] == a[i]);
        } else {
            assert((a + b)[i] == b[i - a.len()]);
        }
    };
}

/// A character that is no digit is not in a number.
proof fn lemma_decimal_avoids(n: u32, c: char)
    requires
        !is_digit(c),
    ensures
        !decimal(n as nat).contains(c),
        decimal(n as nat).len() > 0,
        !is_ws(decimal(n as nat)[0]),
        !is_ws(decimal(n as nat).last()),
{
    lemma_decimal_parses(n);
    let d = decimal(n as nat);
    assert(is_digit(d[0]));
    assert(is_digit(d[d.len() - 1]));
    if d.contains(c) {
        let i = choose|i: int| 0 <= i < d.len() && d[i] == c;
        assert(is_digit(d[i]));
    }
}

/// A text without white space at either end is its own trim.
proof fn lemma_trim_fixed(s: Seq<char>)
    requires
        s.len() > 0,
        !is_ws(s[0]),
        !is_ws(s.last()),
    ensures
        trim(s) == s,
        trim_start(s) == s,
{
}

/// The empty text trims to itself.
proof fn lemma_trim_empty()
    ensures
        trim(Seq::<char>::empty()) == Seq::<char>::empty(),
{
}

/// A plain label has none of the characters that may not stand in an id.
proof fn lemma_plain_avoids(s: Seq<char>, c: char)
    requires
        forall|i: int| 0 <= i < s.len() ==> id_char(#[trigger] s[i]),
        !id_char(c),
    ensures
        !s.contains(c),
{
    if s.contains(c) {
        let i = choose|i: int| 0 <= i < s.len() && s[i] == c;
        assert(id_char(s[i]));
    }
}

/// A plain place label has none of the characters that may not stand in a place id.
proof fn lemma_plain_place_avoids(s: Seq<char>, c: char)
    requires
        forall|i: int| 0 <= i < s.len() ==> place_id_char(#[trigger] s[i]),
        !place_id_char(c),
    ensures
        !s.contains(c),
{
    if s.contains(c) {
        let i = choose|i: int| 0 <= i < s.len() && s[i] == c;
        assert(place_id_char(s[i]));
    }
}

/// A place line as written for a place labelled `label` under the id `id`.
pub open spec fn place_line_text(label: Seq<char>, id: Seq<char>, tokens: u32) -> Seq<char> {
    head_text(label, id) + (if tokens == 0 {
        Seq::empty()
    } else {
        " tokens="@ + decimal(tokens as nat)
    })
}

/// The tokens part of a place line reads back as written.
proof fn lemma_tokens_part(tokens: u32)
    requires
        tokens != 0,
    ensures
        ({
            let t = " tokens="@ + decimal(tokens as nat);
            &&& !t.contains('\n')
            &&& !t.contains('#')
            &&& !t.contains(':')
            &&& !t.contains('>')
            &&& t.len() > 0
            &&& !is_ws(t.last())
            &&& trim(t).len() > 0
            &&& crate::dsl::starts_with(trim(t), "tokens="@)
            &&& parse_u32_spec(trim(trim(t).skip("tokens="@.len() as int))) == Some(tokens)
        }),
{
    reveal_strlit(" tokens=");
    reveal_strlit("tokens=");
    let d = decimal(tokens as nat);
    lemma_decimal_parses(tokens);
    lemma_decimal_avoids(tokens, '\n');
    lemma_decimal_avoids(tokens, '#');
    lemma_decimal_avoids(tokens, ':');
    lemma_decimal_avoids(tokens, '>');
    let lit = " tokens="@;
    assert(!lit.contains('\n'));
    assert(!lit.contains('#'));
    assert(!lit.contains(':'));
    assert(!lit.contains('>'));
    lemma_add_avoids(lit, d, '\n');
    lemma_add_avoids(lit, d, '#');
    lemma_add_avoids(lit, d, ':');
    lemma_add_avoids(lit, d, '>');
    let t = lit + d;
    let x = "tokens="@ + d;
    assert(t.drop_first() =~= x);
    assert(t.last() == d.last());
    assert(x.last() == d.last());
    assert(trim_start(t) == trim_start(x));
    lemma_trim_fixed(x);
    assert(trim(t) == x);
    assert(x.take(7) =~= "tokens="@);
    assert(x.skip(7) =~= d);
    lemma_trim_fixed(d);
}

/// A place line written with a head that reads back reads back as that place.
#[verifier::spinoff_prover]
#[verifier::rlimit(60)]
proof fn lemma_place_line_reads(label: Seq<char>, id: Seq<char>, tokens: u32)
    requires
        head_ok(label, id),
    ensures
        ({
            let r = place_line_text(label, id, tokens);
            &&& !r.contains('\n')
            &&& !r.contains('#')
            &&& !r.contains(':')
            &&& r.len() > 0
            &&& (r[0] == '<' || r[0] == '"')
            &&& clean_line(r) == r
            &&& place_line(r) == Ok::<(Option<Seq<char>>, Seq<char>, u32), Seq<char>>((head_label(label, id), id, tokens))
        }),
{
    reveal(place_line);
    let t: Seq<char> = if tokens == 0 { Seq::empty() } else { " tokens="@ + decimal(tokens as nat) };
    let h = head_text(label, id);
    let r = place_line_text(label, id, tokens);
    assert(r == h + t);
    lemma_head_text_reads(label, id, t);
    if tokens != 0 {
        lemma_tokens_part(tokens);
    }
    lemma_add_avoids(h, t, '\n');
    lemma_add_avoids(h, t, '#');
    lemma_add_avoids(h, t, ':');
    assert(r[0] == h[0]);
    if tokens == 0 {
        assert(r =~= h);
        lemma_trim_empty();
    } else {
        assert(r.last() == t.last());
    }
    lemma_trim_fixed(r);
    assert(find_char(r, '#') is None);
}

/// An item of an arc list: not empty, no white space at either end, no comma,
/// nothing that closes an id, starts a comment or breaks the line.
pub open spec fn list_item(x: Seq<char>) -> bool {
    &&& x.len() > 0
    &&& !is_ws(x[0])
    &&& !is_ws(x.last())
    &&& !x.contains(',')
    &&& !x.contains('>')
    &&& !x.contains('#')
    &&& !x.contains('\n')
}

/// An input arc written on a plain place id reads back as that arc.
proof fn lemma_input_item_reads(id: Seq<char>, kind: ArcKind)
    requires
        plain_place_label(id),
    ensures
        list_item(input_text(id, kind)),
        input_text(id, kind)[0] == '@',
        input_item(input_text(id, kind)) == Ok::<(Seq<char>, ArcKind), Seq<char>>((id, kind)),
{
    reveal_strlit("@");
    reveal_strlit("*");
    reveal_strlit("~");
    reveal_strlit("!");
    let suf: Seq<char> = match kind {
        ArcKind::Consume(w) => if w == 1 {
            Seq::empty()
        } else {
            "*"@ + decimal(w as nat)
        },
        ArcKind::Peek(w) => "~"@ + weight_text(w),
        ArcKind::Inhibit(w) => "!"@ + weight_text(w),
    };
    let tok = input_text(id, kind);
    assert(tok == "@"@ + id + suf);
    let r = tok.drop_first();
    assert(r =~= id + suf);
    lemma_suffix_facts(kind);
    lemma_plain_avoids(id, '\n');
    lemma_plain_avoids(id, '#');
    lemma_plain_avoids(id, '>');
    lemma_plain_place_avoids(id, ',');
    assert(!"@"@.contains(',') && !"@"@.contains('>') && !"@"@.contains('#') && !"@"@.contains('\n'));
    lemma_add_avoids("@"@, id, ',');
    lemma_add_avoids("@"@, id, '>');
    lemma_add_avoids("@"@, id, '#');
    lemma_add_avoids("@"@, id, '\n');
    lemma_add_avoids("@"@ + id, suf, ',');
    lemma_add_avoids("@"@ + id, suf, '>');
    lemma_add_avoids("@"@ + id, suf, '#');
    lemma_add_avoids("@"@ + id, suf, '\n');
    if suf.len() == 0 {
        assert(tok.last() == id.last());
        assert(r =~= id);
        assert forall|i: int| 0 <= i < r.len() implies !is_modifier(r[i]) by {
            assert(place_id_char(id[i]));
        };
        assert(find_modifier(r) is None);
    } else {
        assert(tok.last() == suf.last());
        assert(r[id.len() as int] == suf[0]);
        assert forall|j: int| 0 <= j < id.len() implies !is_modifier(r[j]) by {
            assert(r[j] == id[j]);
            assert(place_id_char(id[j]));
        };
        lemma_find_modifier(r, id.len() as int);
        assert(r.take(id.len() as int) =~= id);
        assert(r.skip(id.len() as int + 1) =~= suf.drop_first());
    }
}

/// What follows an input arc's id: nothing, or a modifier and its weight;
/// the weight reads back.
proof fn lemma_suffix_facts(kind: ArcKind)
    ensures
        ({
            let suf: Seq<char> = match kind {
                ArcKind::Consume(w) => if w == 1 {
                    Seq::empty()
                } else {
                    "*"@ + decimal(w as nat)
                },
                ArcKind::Peek(w) => "~"@ + weight_text(w),
                ArcKind::Inhibit(w) => "!"@ + weight_text(w),
            };
            &&& !suf.contains(',') && !suf.contains('>') && !suf.contains('#') && !suf.contains('\n')
            &&& suf.len() == 0 <==> kind == ArcKind::Consume(1)
            &&& suf.len() > 0 ==> !is_ws(suf.last()) && is_modifier(suf[0])
            &&& suf.len() > 0 ==> match kind {
                ArcKind::Consume(w) => suf[0] == '*' && weight_of(suf.drop_first()) == Ok::<u32, Seq<char>>(w),
                ArcKind::Peek(w) => suf[0] == '~' && weight_of(suf.drop_first()) == Ok::<u32, Seq<char>>(w),
                ArcKind::Inhibit(w) => suf[0] == '!' && weight_of(suf.drop_first()) == Ok::<u32, Seq<char>>(w),
            }
        }),
{
    reveal_strlit("*");
    reveal_strlit("~");
    reveal_strlit("!");
    let w = match kind {
        ArcKind::Consume(w) => w,
        ArcKind::Peek(w) => w,
        ArcKind::Inhibit(w) => w,
    };
    let m: char = match kind {
        ArcKind::Consume(_) => '*',
        ArcKind::Peek(_) => '~',
        ArcKind::Inhibit(_) => '!',
    };
    lemma_decimal_parses(w);
    lemma_decimal_avoids(w, ',');
    lemma_decimal_avoids(w, '>');
    lemma_decimal_avoids(w, '#');
    lemma_decimal_avoids(w, '\n');
    let ws = weight_text(w);
    let d = decimal(w as nat);
    if w == 1 {
        assert(ws =~= Seq::<char>::empty());
    } else {
        assert(ws == d);
    }
    assert(!ws.contains(',') && !ws.contains('>') && !ws.contains('#') && !ws.contains('\n'));
    let full = seq![m] + ws;
    assert(!seq![m].contains(',') && !seq![m].contains('>') && !seq![m].contains('#') && !seq![m].contains('\n'));
    lemma_add_avoids(seq![m], ws, ',');
    lemma_add_avoids(seq![m], ws, '>');
    lemma_add_avoids(seq![m], ws, '#');
    lemma_add_avoids(seq![m], ws, '\n');
    assert(full.drop_first() =~= ws);
    if w == 1 {
        assert(full.last() == m);
    } else {
        assert(full.last() == d.last());
    }
    match kind {
        ArcKind::Consume(x) => {
            if x != 1 {
                assert("*"@ + d =~= full);
            }
        },
        ArcKind::Peek(_) => {
            assert("~"@ + ws =~= full);
        },
        ArcKind::Inhibit(_) => {
            assert("!"@ + ws =~= full);
        },
    }
}

/// An output arc written on a plain place id reads back as that arc.
proof fn lemma_output_item_reads(id: Seq<char>, w: u32)
    requires
        plain_place_label(id),
    ensures
        list_item(output_text(id, w)),
        output_text(id, w)[0] == '@',
        output_item(output_text(id, w)) == Ok::<(Seq<char>, u32), Seq<char>>((id, w)),
{
    reveal_strlit("@");
    reveal_strlit("*");
    lemma_suffix_facts(ArcKind::Consume(w));
    let suf: Seq<char> = if w == 1 {
        Seq::empty()
    } else {
        "*"@ + decimal(w as nat)
    };
    let tok = output_text(id, w);
    assert(tok == "@"@ + id + suf);
    let r = tok.drop_first();
    assert(r =~= id + suf);
    lemma_plain_avoids(id, '\n');
    lemma_plain_avoids(id, '#');
    lemma_plain_avoids(id, '>');
    lemma_plain_place_avoids(id, ',');
    assert(!"@"@.contains(',') && !"@"@.contains('>') && !"@"@.contains('#') && !"@"@.contains('\n'));
    lemma_add_avoids("@"@, id, ',');
    lemma_add_avoids("@"@, id, '>');
    lemma_add_avoids("@"@, id, '#');
    lemma_add_avoids("@"@, id, '\n');
    lemma_add_avoids("@"@ + id, suf, ',');
    lemma_add_avoids("@"@ + id, suf, '>');
    lemma_add_avoids("@"@ + id, suf, '#');
    lemma_add_avoids("@"@ + id, suf, '\n');
    if suf.len() == 0 {
        assert(tok.last() == id.last());
        assert(r =~= id);
        assert forall|i: int| 0 <= i < r.len() implies !is_modifier(r[i]) by {
            assert(place_id_char(id[i]));
        };
        assert(find_modifier(r) is None);
    } else {
        assert(tok.last() == suf.last());
        assert(r[id.len() as int] == suf[0]);
        assert forall|j: int| 0 <= j < id.len() implies !is_modifier(r[j]) by {
            assert(r[j] == id[j]);
            assert(place_id_char(id[j]));
        };
        lemma_find_modifier(r, id.len() as int);
        assert(r.take(id.len() as int) =~= id);
        assert(r.skip(id.len() as int + 1) =~= suf.drop_first());
    }
}

/// The pieces of a list written with `, ` are its items, each after the
/// first preceded by a space.
#[verifier::spinoff_prover]
#[verifier::rlimit(60)]
proof fn lemma_joined_pieces(items: Seq<Seq<char>>)
    requires
        items.len() > 0,
        forall|k: int| 0 <= k < items.len() ==> !(#[trigger] items[k]).contains(','),
    ensures
        pieces(joined(items), ',') == Seq::new(items.len(), |k: int| if k == 0 { items[0] } else { " "@ + items[k] }),
    decreases items.len(),
{
    reveal_strlit(" ");
    reveal_strlit(", ");
    if items.len() == 1 {
        crate::roundtrip::lemma_pieces_single(items[0], ',');
        assert(pieces(joined(items), ',') =~= Seq::new(items.len(), |k: int| if k == 0 { items[0] } else { " "@ + items[k] }));
    } else {
        let d = items.drop_last();
        assert forall|k: int| 0 <= k < d.len() implies !(#[trigger] d[k]).contains(',') by {
            assert(d[k] == items[k]);
        };
        lemma_joined_pieces(d);
        let x = " "@ + items.last();
        assert(items.last() == items[items.len() - 1]);
        assert(!" "@.contains(','));
        lemma_add_avoids(" "@, items.last(), ',');
        assert(joined(items) =~= joined(d) + seq![','] + x);
        lemma_pieces_join(joined(d), x, ',');
        lemma_pieces_single(x, ',');
        assert(pieces(joined(items), ',') =~= Seq::new(items.len(), |k: int| if k == 0 { items[0] } else { " "@ + items[k] }));
    }
}

/// A list written with `, ` has a character only where an item has it.
proof fn lemma_joined_avoids(items: Seq<Seq<char>>, c: char)
    requires
        c != ',',
        c != ' ',
        forall|k: int| 0 <= k < items.len() ==> !(#[trigger] items[k]).contains(c),
    ensures
        !joined(items).contains(c),
    decreases items.len(),
{
    reveal_strlit(", ");
    if items.len() == 1 {
        assert(items[0] == joined(items));
    } else if items.len() > 1 {
        let d = items.drop_last();
        assert forall|k: int| 0 <= k < d.len() implies !(#[trigger] d[k]).contains(c) by {
            assert(d[k] == items[k]);
        };
        lemma_joined_avoids(d, c);
        assert(!", "@.contains(c));
        assert(items.last() == items[items.len() - 1]);
        lemma_add_avoids(joined(d), ", "@, c);
        lemma_add_avoids(joined(d) + ", "@, items.last(), c);
    }
}

/// A list of items written with `, ` begins with the first item and ends with the last.
proof fn lemma_joined_ends(items: Seq<Seq<char>>)
    requires
        items.len() > 0,
        forall|k: int| 0 <= k < items.len() ==> (#[trigger] items[k]).len() > 0,
    ensures
        joined(items).len() > 0,
        joined(items)[0] == items[0][0],
        joined(items).last() == items.last().last(),
    decreases items.len(),
{
    if items.len() > 1 {
        let d = items.drop_last();
        assert forall|k: int| 0 <= k < d.len() implies (#[trigger] d[k]).len() > 0 by {
            assert(d[k] == items[k]);
        };
        lemma_joined_ends(d);
        assert(items.last() == items[items.len() - 1]);
        assert(d[0] == items[0]);
    }
}

/// A list written with `, ` reads back as its items.
proof fn lemma_list_items_reads(items: Seq<Seq<char>>)
    requires
        items.len() > 0,
        forall|k: int| 0 <= k < items.len() ==> list_item(#[trigger] items[k]),
    ensures
        list_items(joined(items)) == Ok::<Seq<Seq<char>>, Seq<char>>(items),
{
    reveal_strlit(" ");
    assert forall|k: int| 0 <= k < items.len() implies !(#[trigger] items[k]).contains(',') && items[k].len() > 0 by {
        assert(list_item(items[k]));
    };
    lemma_joined_pieces(items);
    lemma_joined_ends(items);
    let j = joined(items);
    assert(list_item(items[0]));
    assert(list_item(items[items.len() - 1]));
    assert(items.last() == items[items.len() - 1]);
    lemma_trim_fixed(j);
    let ps = pieces(j, ',');
    assert forall|k: int| 0 <= k < ps.len() implies trim(#[trigger] ps[k]) == items[k] by {
        assert(list_item(items[k]));
        lemma_trim_fixed(items[k]);
        if k > 0 {
            let x = " "@ + items[k];
            assert(x.drop_first() =~= items[k]);
            assert(x.last() == items[k].last());
        }
    };
    assert(!(exists|k: int| 0 <= k < ps.len() && trim(#[trigger] ps[k]).len() == 0));
    assert(ps.map_values(|p: Seq<char>| trim(p)) =~= items);
}

/// Items that each read back give the whole list of inputs.
proof fn lemma_input_items_reads(items: Seq<Seq<char>>, xs: Seq<(Seq<char>, ArcKind)>)
    requires
        items.len() == xs.len(),
        forall|k: int| 0 <= k < items.len() ==> input_item(#[trigger] items[k]) == Ok::<(Seq<char>, ArcKind), Seq<char>>(xs[k]),
    ensures
        input_items(items) == Ok::<Seq<(Seq<char>, ArcKind)>, Seq<char>>(xs),
    decreases items.len(),
{
    if items.len() > 0 {
        let d = items.drop_last();
        assert forall|k: int| 0 <= k < d.len() implies input_item(#[trigger] d[k]) == Ok::<(Seq<char>, ArcKind), Seq<char>>(xs.drop_last()[k]) by {
            assert(d[k] == items[k]);
        };
        lemma_input_items_reads(d, xs.drop_last());
        assert(items.last() == items[items.len() - 1]);
        assert(xs.drop_last().push(xs[xs.len() - 1]) =~= xs);
    } else {
        assert(xs =~= Seq::<(Seq<char>, ArcKind)>::empty());
    }
}

/// Items that each read back give the whole list of outputs.
proof fn lemma_output_items_reads(items: Seq<Seq<char>>, xs: Seq<(Seq<char>, u32)>)
    requires
        items.len() == xs.len(),
        forall|k: int| 0 <= k < items.len() ==> output_item(#[trigger] items[k]) == Ok::<(Seq<char>, u32), Seq<char>>(xs[k]),
    ensures
        output_items(items) == Ok::<Seq<(Seq<char>, u32)>, Seq<char>>(xs),
    decreases items.len(),
{
    if items.len() > 0 {
        let d = items.drop_last();
        assert forall|k: int| 0 <= k < d.len() implies output_item(#[trigger] d[k]) == Ok::<(Seq<char>, u32), Seq<char>>(xs.drop_last()[k]) by {
            assert(d[k] == items[k]);
        };
        lemma_output_items_reads(d, xs.drop_last());
        assert(items.last() == items[items.len() - 1]);
        assert(xs.drop_last().push(xs[xs.len() - 1]) =~= xs);
    } else {
        assert(xs =~= Seq::<(Seq<char>, u32)>::empty());
    }
}

/// Spaces around a text without white space at its ends trim away.
proof fn lemma_trim_padded(x: Seq<char>)
    ensures
        x.len() > 0 && !is_ws(x[0]) && !is_ws(x.last()) ==> trim(" "@ + x + " "@) == x && trim(" "@ + x) == x,
        x.len() == 0 ==> trim(" "@ + x + " "@) == x && trim(" "@ + x) == x,
{
    reveal_strlit(" ");
    let a = " "@ + x + " "@;
    let b = " "@ + x;
    assert(is_ws(' '));
    assert(a.drop_first() =~= x + " "@);
    assert(trim_start(a) == trim_start(x + " "@));
    assert(b.drop_first() =~= x);
    assert(trim_start(b) == trim_start(x));
    if x.len() > 0 && !is_ws(x[0]) && !is_ws(x.last()) {
        let y = x + " "@;
        assert(y[0] == x[0]);
        assert(trim_start(y) == y);
        assert(y.drop_last() =~= x);
        assert(trim_end(y) == trim_end(x));
        lemma_trim_fixed(x);
    }
    if x.len() == 0 {
        let y = x + " "@;
        assert(y.drop_first() =~= Seq::<char>::empty());
        assert(trim_start(y) == trim_start(y.drop_first()));
        assert(trim_start(Seq::<char>::empty()) == Seq::<char>::empty());
        assert(trim_start(x) =~= Seq::<char>::empty());
    }
}

/// `<id>` followed by `t`, for a plain id, reads back as that id, with `t`
/// trimmed after it.
proof fn lemma_id_part_reads(label: Option<Seq<char>>, id: Seq<char>, t: Seq<char>)
    requires
        plain_label(id),
    ensures
        crate::dsl::id_part(label, "<"@ + id + ">"@ + t) == Ok::<(Option<Seq<char>>, Seq<char>, Seq<char>), Seq<char>>((label, id, trim(t))),
{
    reveal_strlit("<");
    reveal_strlit(">");
    let r = "<"@ + id + ">"@ + t;
    assert(r[0] == '<');
    let a = r.drop_first();
    assert(a =~= id + ">"@ + t);
    assert(a[id.len() as int] == '>');
    assert forall|j: int| 0 <= j < id.len() implies a[j] != '>' by {
        assert(a[j] == id[j]);
        assert(id_char(id[j]));
    };
    lemma_find_char(a, '>', id.len() as int);
    assert(a.take(id.len() as int) =~= id);
    lemma_trim_fixed(id);
    assert(a.skip(id.len() as int + 1) =~= t);
}

/// A label may be written in quotes: it holds no quote, no comment sign, no
/// colon and no line break.
pub open spec fn quotable(s: Seq<char>) -> bool {
    forall|i: int| 0 <= i < s.len() ==> #[trigger] s[i] != '"' && s[i] != '#' && s[i] != ':' && s[i] != '\n'
}

/// The head written for a node labelled `label` under the id `id` reads back:
/// the id is plain, and the label, written in quotes where it is not the id,
/// can be.
pub open spec fn head_ok(label: Seq<char>, id: Seq<char>) -> bool {
    &&& plain_label(id)
    &&& id != label ==> quotable(label)
}

/// The label a head carries: none where the id is the label.
pub open spec fn head_label(label: Seq<char>, id: Seq<char>) -> Option<Seq<char>> {
    if id == label {
        None
    } else {
        Some(label)
    }
}

/// `h` is a declaration head that reads as `label` and `id`: it begins with
/// `<` or a quote, ends with `>`, and breaks no line, starts no comment and
/// holds no colon.
#[verifier::opaque]
pub open spec fn head_reads(h: Seq<char>, label: Option<Seq<char>>, id: Seq<char>) -> bool {
    &&& h.len() > 0
    &&& (h[0] == '<' || h[0] == '"')
    &&& h.last() == '>'
    &&& !h.contains('\n')
    &&& !h.contains('#')
    &&& !h.contains(':')
    &&& label_and_id(h) == Ok::<(Option<Seq<char>>, Seq<char>, Seq<char>), Seq<char>>((label, id, Seq::empty()))
}

/// The head `<id>` with what follows it reads back as the id.
#[verifier::spinoff_prover]
proof fn lemma_plain_head_reads(id: Seq<char>, t: Seq<char>)
    requires
        plain_label(id),
    ensures
        label_and_id("<"@ + id + ">"@ + t) == Ok::<(Option<Seq<char>>, Seq<char>, Seq<char>), Seq<char>>((None, id, trim(t))),
        !("<"@ + id + ">"@).contains('\n'),
        !("<"@ + id + ">"@).contains('#'),
        !("<"@ + id + ">"@).contains(':'),
        ("<"@ + id + ">"@).len() > 0,
        ("<"@ + id + ">"@)[0] == '<',
        ("<"@ + id + ">"@).last() == '>',
{
    reveal_strlit("<");
    reveal_strlit(">");
    let core = "<"@ + id + ">"@;
    lemma_plain_avoids(id, '\n');
    lemma_plain_avoids(id, '#');
    lemma_plain_avoids(id, ':');
    assert(!"<"@.contains('\n') && !"<"@.contains('#') && !"<"@.contains(':'));
    assert(!">"@.contains('\n') && !">"@.contains('#') && !">"@.contains(':'));
    lemma_add_avoids("<"@, id, '\n');
    lemma_add_avoids("<"@, id, '#');
    lemma_add_avoids("<"@, id, ':');
    lemma_add_avoids("<"@ + id, ">"@, '\n');
    lemma_add_avoids("<"@ + id, ">"@, '#');
    lemma_add_avoids("<"@ + id, ">"@, ':');
    let r = core + t;
    assert(r[0] == '<');
    assert(trim_start(r) == r);
    lemma_id_part_reads(None, id, t);
}

/// A head that opens with a quote reads the label up to the closing quote,
/// then the id part after it.
proof fn lemma_label_and_id_quoted(s: Seq<char>, label: Seq<char>, after: Seq<char>)
    requires
        s.len() > 0,
        s[0] == '"',
        find_char(s.drop_first(), '"') == Some(label.len() as int),
        s.drop_first().take(label.len() as int) == label,
        trim_start(s.drop_first().skip(label.len() as int + 1)) == after,
    ensures
        label_and_id(s) == crate::dsl::id_part(Some(label), after),
{
    assert(!is_ws('"'));
    assert(trim_start(s) == s);
}

/// The head `"label" <id>` with what follows it reads back as the label and the id.
#[verifier::spinoff_prover]
#[verifier::rlimit(60)]
proof fn lemma_quoted_head_parse(label: Seq<char>, id: Seq<char>, t: Seq<char>)
    requires
        plain_label(id),
        !label.contains('"'),
    ensures
        label_and_id(seq!['"'] + label + seq!['"', ' '] + ("<"@ + id + ">"@) + t)
            == Ok::<(Option<Seq<char>>, Seq<char>, Seq<char>), Seq<char>>((Some(label), id, trim(t))),
{
    let core = "<"@ + id + ">"@;
    let ct = core + t;
    let r = seq!['"'] + label + seq!['"', ' '] + core + t;
    let q = label + (seq!['"', ' '] + ct);
    assert(r =~= seq!['"'] + q);
    assert(r.drop_first() =~= q);
    assert(q[label.len() as int] == '"');
    assert forall|j: int| 0 <= j < label.len() implies q[j] != '"' by {
        assert(q[j] == label[j]);
    };
    lemma_find_char(q, '"', label.len() as int);
    assert(q.take(label.len() as int) =~= label);
    let rest = q.skip(label.len() as int + 1);
    assert(rest =~= seq![' '] + ct);
    assert(rest.drop_first() =~= ct);
    assert(is_ws(' '));
    assert(trim_start(rest) == trim_start(ct));
    reveal_strlit("<");
    assert(ct[0] == '<');
    assert(trim_start(ct) == ct);
    lemma_label_and_id_quoted(r, label, ct);
    lemma_id_part_reads(Some(label), id, t);
}

/// The head `"label" <id>` breaks no line, starts no comment and holds no colon.
#[verifier::spinoff_prover]
proof fn lemma_quoted_head_chars(label: Seq<char>, id: Seq<char>)
    requires
        plain_label(id),
        quotable(label),
    ensures
        ({
            let h = seq!['"'] + label + seq!['"', ' '] + ("<"@ + id + ">"@);
            &&& !h.contains('\n')
            &&& !h.contains('#')
            &&& !h.contains(':')
            &&& h.len() > 0
            &&& h[0] == '"'
            &&& h.last() == '>'
        }),
        !label.contains('"'),
{
    lemma_plain_head_reads(id, Seq::empty());
    let core = "<"@ + id + ">"@;
    let pre = seq!['"'] + label + seq!['"', ' '];
    assert forall|i: int| 0 <= i < label.len() implies label[i] != '"' && label[i] != '#' && label[i] != ':' && label[i] != '\n' by {
        assert(quotable(label));
    };
    assert(!pre.contains('\n') && !pre.contains('#') && !pre.contains(':')) by {
        assert forall|i: int| 0 <= i < pre.len() implies pre[i] != '\n' && pre[i] != '#' && pre[i] != ':' by {
            if 1 <= i <= label.len() {
                assert(pre[i] == label[i - 1]);
            }
        };
    };
    lemma_add_avoids(pre, core, '\n');
    lemma_add_avoids(pre, core, '#');
    lemma_add_avoids(pre, core, ':');
    assert((pre + core).last() == core.last());
    assert((pre + core)[0] == '"');
}

/// A declaration head as written reads back as its label and id, with what
/// follows it trimmed; it breaks no line, starts no comment and holds no colon.
#[verifier::spinoff_prover]
proof fn lemma_head_text_reads(label: Seq<char>, id: Seq<char>, t: Seq<char>)
    requires
        head_ok(label, id),
    ensures
        label_and_id(head_text(label, id) + t) == Ok::<(Option<Seq<char>>, Seq<char>, Seq<char>), Seq<char>>(
            (head_label(label, id), id, trim(t)),
        ),
        !head_text(label, id).contains('\n'),
        !head_text(label, id).contains('#'),
        !head_text(label, id).contains(':'),
        head_text(label, id).len() > 0,
        head_text(label, id)[0] == '<' || head_text(label, id)[0] == '"',
        head_text(label, id).last() == '>',
        head_reads(head_text(label, id), head_label(label, id), id),
{
    let h = head_text(label, id);
    let core = "<"@ + id + ">"@;
    if id == label {
        assert(h =~= core);
        lemma_plain_head_reads(id, t);
        lemma_plain_head_reads(id, Seq::empty());
        assert(core + Seq::<char>::empty() =~= core);
    } else {
        reveal_strlit("\"");
        reveal_strlit("\" ");
        assert(h =~= seq!['"'] + label + seq!['"', ' '] + core);
        lemma_quoted_head_chars(label, id);
        lemma_quoted_head_parse(label, id, t);
        lemma_quoted_head_parse(label, id, Seq::empty());
        assert(h + Seq::<char>::empty() =~= h);
    }
    lemma_trim_empty();
    reveal(head_reads);
}

/// What a head that reads back is made of.
proof fn lemma_head_reads_facts(h: Seq<char>, label: Option<Seq<char>>, id: Seq<char>)
    requires
        head_reads(h, label, id),
    ensures
        h.len() > 0,
        h[0] == '<' || h[0] == '"',
        h.last() == '>',
        !h.contains('\n'),
        !h.contains('#'),
        !h.contains(':'),
{
    reveal(head_reads);
}

/// A transition line as written for a transition labelled `label` under the
/// id `id`, given its arc lists as written.
pub open spec fn transition_line_text(label: Seq<char>, id: Seq<char>, it: Seq<Seq<char>>, ot: Seq<Seq<char>>) -> Seq<char> {
    head_text(label, id) + ": "@ + joined(it) + " -> "@ + joined(ot)
}

/// What the arc lists of a transition line hold: items that read back as `ins` and `outs`.
#[verifier::opaque]
pub open spec fn lists_read(it: Seq<Seq<char>>, ot: Seq<Seq<char>>, ins: Seq<(Seq<char>, ArcKind)>, outs: Seq<(Seq<char>, u32)>) -> bool {
    &&& it.len() == ins.len()
    &&& ot.len() == outs.len()
    &&& forall|k: int| 0 <= k < it.len() ==> list_item(#[trigger] it[k]) && input_item(it[k]) == Ok::<(Seq<char>, ArcKind), Seq<char>>(ins[k])
    &&& forall|k: int| 0 <= k < ot.len() ==> list_item(#[trigger] ot[k]) && output_item(ot[k]) == Ok::<(Seq<char>, u32), Seq<char>>(outs[k])
}

/// The outputs part that is left of a transition line once it is trimmed.
pub open spec fn outputs_tail(o: Seq<char>) -> Seq<char> {
    if o.len() == 0 {
        Seq::empty()
    } else {
        " "@ + o
    }
}

/// A transition line as written has no line break, and its cleaned form ends
/// after the arrow where there are no outputs.
#[verifier::spinoff_prover]
#[verifier::rlimit(100)]
proof fn lemma_transition_clean(
    h: Seq<char>,
    label: Option<Seq<char>>,
    id: Seq<char>,
    it: Seq<Seq<char>>,
    ot: Seq<Seq<char>>,
    ins: Seq<(Seq<char>, ArcKind)>,
    outs: Seq<(Seq<char>, u32)>,
)
    requires
        head_reads(h, label, id),
        lists_read(it, ot, ins, outs),
    ensures
        !(h + ": "@ + joined(it) + " -> "@ + joined(ot)).contains('\n'),
        clean_line(h + ": "@ + joined(it) + " -> "@ + joined(ot)) == h + ": "@ + joined(it) + " ->"@ + outputs_tail(joined(ot)),
        !joined(it).contains('>'),
        !joined(ot).contains('>'),
        joined(it).len() > 0 ==> !is_ws(joined(it)[0]) && !is_ws(joined(it).last()),
        joined(ot).len() > 0 ==> !is_ws(joined(ot)[0]) && !is_ws(joined(ot).last()),
        joined(it).len() == 0 <==> it.len() == 0,
        joined(ot).len() == 0 <==> ot.len() == 0,
{
    reveal(lists_read);
    lemma_head_reads_facts(h, label, id);
    reveal_strlit(": ");
    reveal_strlit(" -> ");
    reveal_strlit(" ->");
    reveal_strlit(" ");
    let i = joined(it);
    let o = joined(ot);
    assert forall|k: int| 0 <= k < it.len() implies !(#[trigger] it[k]).contains('\n') && !it[k].contains('#') && !it[k].contains('>') && it[k].len() > 0 by {
        assert(list_item(it[k]));
    };
    assert forall|k: int| 0 <= k < ot.len() implies !(#[trigger] ot[k]).contains('\n') && !ot[k].contains('#') && !ot[k].contains('>') && ot[k].len() > 0 by {
        assert(list_item(ot[k]));
    };
    lemma_joined_avoids(it, '\n');
    lemma_joined_avoids(it, '#');
    lemma_joined_avoids(it, '>');
    lemma_joined_avoids(ot, '\n');
    lemma_joined_avoids(ot, '#');
    lemma_joined_avoids(ot, '>');
    if it.len() > 0 {
        lemma_joined_ends(it);
        assert(list_item(it[0]));
        assert(list_item(it[it.len() - 1]));
        assert(it.last() == it[it.len() - 1]);
    }
    if ot.len() > 0 {
        lemma_joined_ends(ot);
        assert(list_item(ot[0]));
        assert(list_item(ot[ot.len() - 1]));
        assert(ot.last() == ot[ot.len() - 1]);
    }
    assert(!": "@.contains('\n') && !": "@.contains('#'));
    assert(!" -> "@.contains('\n') && !" -> "@.contains('#'));
    lemma_add_avoids(h, ": "@, '\n');
    lemma_add_avoids(h, ": "@, '#');
    lemma_add_avoids(h + ": "@, i, '\n');
    lemma_add_avoids(h + ": "@, i, '#');
    lemma_add_avoids(h + ": "@ + i, " -> "@, '\n');
    lemma_add_avoids(h + ": "@ + i, " -> "@, '#');
    lemma_add_avoids(h + ": "@ + i + " -> "@, o, '\n');
    lemma_add_avoids(h + ": "@ + i + " -> "@, o, '#');
    let r = h + ": "@ + i + " -> "@ + o;
    assert(find_char(r, '#') is None);
    assert(r[0] == h[0]);
    let c = h + ": "@ + i + " ->"@ + outputs_tail(o);
    if o.len() > 0 {
        assert(r.last() == o.last());
        lemma_trim_fixed(r);
        assert(r =~= c);
    } else {
        assert(r.last() == ' ');
        assert(r.drop_last() =~= c);
        assert(c.last() == '>');
        assert(trim_end(r) == trim_end(c));
        assert(trim_start(r) == r);
        assert(c[0] == h[0]);
        lemma_trim_fixed(c);
    }
}

/// The first colon of `c` is at `n`, and what stands before it is a head that
/// reads as `label` and `id`.
#[verifier::opaque]
pub open spec fn head_at(c: Seq<char>, n: int, label: Option<Seq<char>>, id: Seq<char>) -> bool {
    &&& find_char(c, ':') == Some(n)
    &&& label_and_id(trim(c.take(n))) == Ok::<(Option<Seq<char>>, Seq<char>, Seq<char>), Seq<char>>((label, id, Seq::empty()))
}

/// The first arrow of `tail` is at `m`, and none follows it.
#[verifier::opaque]
pub open spec fn arrow_once(tail: Seq<char>, m: int) -> bool {
    &&& find_arrow(tail) == Some(m)
    &&& find_arrow(tail.skip(m + 2)) is None
}

/// The input list `x` reads as `ins` and the output list `y` as `outs`.
#[verifier::opaque]
pub open spec fn lists_as(x: Seq<char>, y: Seq<char>, ins: Seq<(Seq<char>, ArcKind)>, outs: Seq<(Seq<char>, u32)>) -> bool {
    &&& input_list(x) == Ok::<Seq<(Seq<char>, ArcKind)>, Seq<char>>(ins)
    &&& output_list(y) == Ok::<Seq<(Seq<char>, u32)>, Seq<char>>(outs)
}

/// The head of a cleaned transition line: the first colon follows the head.
#[verifier::spinoff_prover]
proof fn lemma_transition_head(h: Seq<char>, label: Option<Seq<char>>, id: Seq<char>, rest: Seq<char>)
    requires
        head_reads(h, label, id),
    ensures
        ({
            let c = h + ": "@ + rest;
            let n = h.len() as int;
            &&& head_at(c, n, label, id)
            &&& c.skip(n + 1) =~= " "@ + rest
            &&& c.contains(':')
            &&& c[0] == h[0]
        }),
{
    reveal_strlit(": ");
    reveal_strlit(" ");
    lemma_head_reads_facts(h, label, id);
    let c = h + ": "@ + rest;
    let n = h.len() as int;
    assert(c[n] == ':');
    assert forall|j: int| 0 <= j < n implies c[j] != ':' by {
        assert(c[j] == h[j]);
    };
    lemma_find_char(c, ':', n);
    assert(c.take(n) =~= h);
    lemma_trim_fixed(h);
    lemma_head_at_of(c, n, h, label, id);
}

/// A line whose first colon follows a head that reads back has that head.
proof fn lemma_head_at_of(c: Seq<char>, n: int, h: Seq<char>, label: Option<Seq<char>>, id: Seq<char>)
    requires
        find_char(c, ':') == Some(n),
        c.take(n) == h,
        trim(h) == h,
        head_reads(h, label, id),
    ensures
        head_at(c, n, label, id),
{
    reveal(head_at);
    reveal(head_reads);
}

/// The arrow of a transition line: the first `->` follows the inputs, and no
/// other follows it.
#[verifier::spinoff_prover]
#[verifier::rlimit(60)]
proof fn lemma_transition_arrow(i: Seq<char>, rr: Seq<char>)
    requires
        !i.contains('>'),
        !rr.contains('>'),
    ensures
        ({
            let tail = " "@ + i + " ->"@ + rr;
            let m = i.len() as int;
            &&& arrow_once(tail, m + 2)
            &&& tail.take(m + 2) =~= " "@ + i + " "@
            &&& tail.skip(m + 4) =~= rr
        }),
{
    reveal_strlit(" ->");
    reveal_strlit(" ");
    let x = seq![' '] + i;
    let y = x + seq![' ', '-', '>'];
    let tail = y + rr;
    assert(tail =~= " "@ + i + " ->"@ + rr);
    let m = i.len() as int;
    assert(tail[m + 2] == y[m + 2]);
    assert(y[m + 2] == '-');
    assert(tail[m + 3] == '>');
    assert(arrow_at(tail, m + 2));
    assert forall|j: int| 0 <= j < m + 2 implies !arrow_at(tail, j) by {
        let k = j + 1;
        assert(tail[k] == y[k]);
        if k <= m {
            assert(y[k] == x[k]);
            assert(x[k] == i[k - 1]);
            assert(i[k - 1] != '>');
        } else if k == m + 1 {
            assert(y[k] == ' ');
        } else {
            assert(y[k] == '-');
        }
    };
    lemma_find_arrow(tail, m + 2);
    assert forall|j: int| !arrow_at(rr, j) by {
        if 0 <= j < rr.len() - 1 {
            assert(rr[j + 1] != '>');
        }
    };
    assert(tail.take(m + 2) =~= " "@ + i + " "@);
    assert(tail.skip(m + 4) =~= rr);
    reveal(arrow_once);
}

/// The arc lists of a transition line read back as its arcs.
#[verifier::spinoff_prover]
proof fn lemma_transition_lists(it: Seq<Seq<char>>, ot: Seq<Seq<char>>, ins: Seq<(Seq<char>, ArcKind)>, outs: Seq<(Seq<char>, u32)>)
    requires
        lists_read(it, ot, ins, outs),
        joined(it).len() > 0 ==> !is_ws(joined(it)[0]) && !is_ws(joined(it).last()),
        joined(ot).len() > 0 ==> !is_ws(joined(ot)[0]) && !is_ws(joined(ot).last()),
        joined(it).len() == 0 <==> it.len() == 0,
        joined(ot).len() == 0 <==> ot.len() == 0,
    ensures
        lists_as(" "@ + joined(it) + " "@, outputs_tail(joined(ot)), ins, outs),
{
    reveal(lists_as);
    reveal(lists_read);
    let i = joined(it);
    let o = joined(ot);
    lemma_trim_padded(i);
    lemma_trim_padded(o);
    if it.len() > 0 {
        lemma_list_items_reads(it);
        assert(list_items(" "@ + i + " "@) == list_items(i));
    } else {
        assert(list_items(" "@ + i + " "@) == Ok::<Seq<Seq<char>>, Seq<char>>(Seq::empty()));
        assert(it =~= Seq::<Seq<char>>::empty());
    }
    lemma_input_items_reads(it, ins);
    let rr = outputs_tail(o);
    if ot.len() > 0 {
        lemma_list_items_reads(ot);
        assert(list_items(rr) == list_items(o));
    } else {
        lemma_trim_empty();
        assert(list_items(rr) == Ok::<Seq<Seq<char>>, Seq<char>>(Seq::empty()));
        assert(ot =~= Seq::<Seq<char>>::empty());
    }
    lemma_output_items_reads(ot, outs);
}

/// A line whose colon, head, arrow and lists read as given reads as that transition.
#[verifier::spinoff_prover]
#[verifier::rlimit(100)]
proof fn lemma_transition_line_of(
    c: Seq<char>,
    n: int,
    m: int,
    label: Option<Seq<char>>,
    id: Seq<char>,
    ins: Seq<(Seq<char>, ArcKind)>,
    outs: Seq<(Seq<char>, u32)>,
)
    requires
        head_at(c, n, label, id),
        arrow_once(c.skip(n + 1), m),
        lists_as(c.skip(n + 1).take(m), c.skip(n + 1).skip(m + 2), ins, outs),
    ensures
        transition_line(c) == Ok::<crate::dsl::TransitionParts, Seq<char>>((label, id, ins, outs)),
{
    reveal(transition_line);
    reveal(head_at);
    reveal(arrow_once);
    reveal(lists_as);
}

/// The cleaned transition line reads back as the transition: its label and
/// id, then its inputs and outputs in order.
#[verifier::spinoff_prover]
#[verifier::rlimit(100)]
proof fn lemma_transition_parse(
    label: Seq<char>,
    id: Seq<char>,
    it: Seq<Seq<char>>,
    ot: Seq<Seq<char>>,
    ins: Seq<(Seq<char>, ArcKind)>,
    outs: Seq<(Seq<char>, u32)>,
)
    requires
        head_ok(label, id),
        lists_read(it, ot, ins, outs),
    ensures
        ({
            let c = clean_line(transition_line_text(label, id, it, ot));
            &&& c.len() > 0
            &&& (c[0] == '<' || c[0] == '"')
            &&& c.contains(':')
            &&& transition_line(c) == Ok::<crate::dsl::TransitionParts, Seq<char>>((head_label(label, id), id, ins, outs))
        }),
{
    let h = head_text(label, id);
    lemma_head_text_reads(label, id, Seq::empty());
    lemma_transition_clean(h, head_label(label, id), id, it, ot, ins, outs);
    let i = joined(it);
    let o = joined(ot);
    let rr = outputs_tail(o);
    let rest = i + " ->"@ + rr;
    let c = h + ": "@ + rest;
    assert(c =~= h + ": "@ + i + " ->"@ + rr);
    let n = h.len() as int;
    let m = i.len() as int;
    lemma_transition_head(h, head_label(label, id), id, rest);
    reveal_strlit(" ");
    assert(!" "@.contains('>'));
    lemma_add_avoids(" "@, o, '>');
    assert(!rr.contains('>'));
    lemma_transition_arrow(i, rr);
    let tail = c.skip(n + 1);
    assert(tail =~= " "@ + i + " ->"@ + rr);
    lemma_transition_lists(it, ot, ins, outs);
    assert(tail.take(m + 2) == " "@ + i + " "@);
    assert(tail.skip(m + 4) == rr);
    lemma_transition_line_of(c, n, m + 2, head_label(label, id), id, ins, outs);
}

/// An id that may stand in an arc list: no comma and no arc modifier in it.
pub open spec fn arc_id_ok(s: Seq<char>) -> bool {
    forall|i: int| 0 <= i < s.len() ==> place_id_char(#[trigger] s[i])
}

/// The nets the law of the text format speaks of: their keys are in slot
/// order and there are few enough nodes for a net to hold them, as for every
/// net the library builds.
pub open spec fn round_trippable(v: ModelView) -> bool {
    &&& in_slot_order(v.places.dom(), place_order(v))
    &&& in_slot_order(v.transitions.dom(), transition_order(v))
    &&& place_order(v).len() + 2 < 0x1_0000_0000
    &&& transition_order(v).len() + 2 < 0x1_0000_0000
}

/// What the writer guarantees of the ids of a [`round_trippable`] net: every
/// head reads back, every place id may stand in arc lists, and no two places
/// share an id.
pub open spec fn well_written(v: ModelView) -> bool {
    &&& in_slot_order(v.places.dom(), place_order(v))
    &&& in_slot_order(v.transitions.dom(), transition_order(v))
    &&& place_order(v).len() + 2 < 0x1_0000_0000
    &&& transition_order(v).len() + 2 < 0x1_0000_0000
    &&& forall|i: int| 0 <= i < place_order(v).len()
        ==> head_ok(place_label_shown(v, i), #[trigger] place_id_at(v, i)) && plain_place_label(place_id_at(v, i))
    &&& forall|j: int| 0 <= j < transition_order(v).len()
        ==> head_ok(transition_label_shown(v, j), #[trigger] transition_id_at(v, j))
    &&& forall|t: u64, i: int| v.transitions.dom().contains(t) && 0 <= i < v.transitions[t].inputs@.len()
        ==> arc_id_ok(place_written_id(v, (#[trigger] v.transitions[t].inputs@[i]).0.0))
    &&& forall|t: u64, i: int| v.transitions.dom().contains(t) && 0 <= i < v.transitions[t].outputs@.len()
        ==> arc_id_ok(place_written_id(v, (#[trigger] v.transitions[t].outputs@[i]).0.0))
    &&& forall|a: u64, b: u64|
        v.places.dom().contains(a) && v.places.dom().contains(b) && a != b ==> #[trigger] place_written_id(v, a) != #[trigger] place_written_id(
            v,
            b,
        )
}

/// The id written for the `i`-th place of `v`.
pub open spec fn place_id_at(v: ModelView, i: int) -> Seq<char> {
    place_id_of(v, i)
}

/// The id written for the `j`-th transition of `v`.
pub open spec fn transition_id_at(v: ModelView, j: int) -> Seq<char> {
    transition_id_of(v, j)
}

/// The input arcs of transition `t` of `v`, each on the id its place is written under.
pub open spec fn read_inputs(v: ModelView, t: u64) -> Seq<(Seq<char>, ArcKind)> {
    v.transitions[t].inputs@.map_values(|a: (PlaceId, ArcKind)| (place_written_id(v, a.0.0), a.1))
}

/// The output arcs of transition `t` of `v`, each on the id its place is written under.
pub open spec fn read_outputs(v: ModelView, t: u64) -> Seq<(Seq<char>, u32)> {
    v.transitions[t].outputs@.map_values(|a: (PlaceId, u32)| (place_written_id(v, a.0.0), a.1))
}

/// A generated id, a letter and a position, is a plain place label.
proof fn lemma_generated_id(prefix: char, n: nat)
    requires
        prefix == 'p' || prefix == 't',
        n < 0x1_0000_0000,
    ensures
        plain_place_label(seq![prefix] + decimal(n)),
        valid_id(seq![prefix] + decimal(n)),
        generated_form(seq![prefix] + decimal(n), prefix),
{
    let d = decimal(n);
    lemma_decimal_parses(n as u32);
    assert((n as u32) as nat == n);
    let g = seq![prefix] + d;
    assert forall|i: int| 0 <= i < g.len() implies place_id_char(#[trigger] g[i]) && id_char(g[i]) by {
        if i > 0 {
            assert(g[i] == d[i - 1]);
            assert(crate::text::is_digit(d[i - 1]));
        }
    };
    assert(g.last() == d[d.len() - 1]);
    assert(crate::text::is_digit(d[d.len() - 1]));
    lemma_plain_avoids(g, '>');
}

/// The line written for a place is the place line of its label, id and tokens.
proof fn lemma_place_row(v: ModelView, i: int)
    requires
        well_written(v),
        0 <= i < place_order(v).len(),
    ensures
        head_ok(place_label_shown(v, i), place_id_at(v, i)),
        plain_label(place_id_at(v, i)),
        place_row(v, i) == place_line_text(place_label_shown(v, i), place_id_at(v, i), v.places[place_order(v)[i]].tokens),
{
    let k = place_order(v)[i];
    assert(place_order(v).contains(k));
    assert(v.places.dom().contains(k));
    assert(head_ok(place_label_shown(v, i), place_id_at(v, i)));
}

/// The place under key `k` of `v` is written under a plain id.
proof fn lemma_place_written_id(v: ModelView, k: u64)
    requires
        well_written(v),
        v.places.dom().contains(k),
    ensures
        plain_label(place_written_id(v, k)),
        0 <= position(place_order(v), k) < place_order(v).len(),
        place_order(v)[position(place_order(v), k)] == k,
        place_written_id(v, k) == place_id_at(v, position(place_order(v), k)),
{
    lemma_positions(v.places.dom(), place_order(v));
    let i = position(place_order(v), k);
    lemma_place_row(v, i);
}

/// The line written for a transition is the transition line of its label,
/// id and arcs, and its arc lists read back as its arcs on place ids.
proof fn lemma_transition_row(v: ModelView, j: int)
    requires
        v.wf(),
        well_written(v),
        0 <= j < transition_order(v).len(),
    ensures
        ({
            let t = transition_order(v)[j];
            &&& head_ok(transition_label_shown(v, j), transition_id_at(v, j))
            &&& transition_row(v, j) == transition_line_text(transition_label_shown(v, j), transition_id_at(v, j), inputs_text(v, t), outputs_text(v, t))
            &&& lists_read(inputs_text(v, t), outputs_text(v, t), read_inputs(v, t), read_outputs(v, t))
        }),
{
    let t = transition_order(v)[j];
    assert(transition_order(v).contains(t));
    assert(v.transitions.dom().contains(t));
    assert(head_ok(transition_label_shown(v, j), transition_id_at(v, j)));
    let it = inputs_text(v, t);
    let ot = outputs_text(v, t);
    let ins = read_inputs(v, t);
    let outs = read_outputs(v, t);
    let ia = v.transitions[t].inputs@;
    let oa = v.transitions[t].outputs@;
    assert forall|k: int| 0 <= k < it.len() implies list_item(#[trigger] it[k]) && input_item(it[k]) == Ok::<(Seq<char>, ArcKind), Seq<char>>(ins[k]) by {
        let a = ia[k];
        assert(v.places.dom().contains(a.0.0));
        lemma_place_written_id(v, a.0.0);
        assert(arc_id_ok(place_written_id(v, v.transitions[t].inputs@[k].0.0)));
        lemma_input_item_reads(place_written_id(v, a.0.0), a.1);
    };
    assert forall|k: int| 0 <= k < ot.len() implies list_item(#[trigger] ot[k]) && output_item(ot[k]) == Ok::<(Seq<char>, u32), Seq<char>>(outs[k]) by {
        let a = oa[k];
        assert(v.places.dom().contains(a.0.0));
        lemma_place_written_id(v, a.0.0);
        assert(arc_id_ok(place_written_id(v, v.transitions[t].outputs@[k].0.0)));
        lemma_output_item_reads(place_written_id(v, a.0.0), a.1);
    };
    reveal(lists_read);
}

/// The lines of the document written for `v`: the places header, a line per
/// place, a blank line, the transitions header, a line per transition, and
/// the empty text after the last break.
proof fn lemma_doc_lines(v: ModelView)
    requires
        v.wf(),
        well_written(v),
    ensures
        ({
            let l = doc_lines(dsl_text(v));
            let np = place_order(v).len() as int;
            let nt = transition_order(v).len() as int;
            &&& l.len() == np + nt + 4
            &&& l[0] == "[places]"@
            &&& forall|i: int| 0 <= i < np ==> l[i + 1] == #[trigger] place_row(v, i)
            &&& l[np + 1] == Seq::<char>::empty()
            &&& l[np + 2] == "[transitions]"@
            &&& forall|j: int| 0 <= j < nt ==> l[np + 3 + j] == #[trigger] transition_row(v, j)
            &&& l[np + nt + 3] == Seq::<char>::empty()
        }),
{
    reveal_strlit("[places]");
    reveal_strlit("[transitions]");
    lemma_dsl_text_rows(v);
    let rows = doc_rows(v);
    let np = place_order(v).len() as int;
    let nt = transition_order(v).len() as int;
    assert forall|x: int| 0 <= x < rows.len() implies !(#[trigger] rows[x]).contains('\n') by {
        if x == 0 {
            assert(rows[x] == "[places]"@);
        } else if x <= np {
            assert(rows[x] == place_row(v, x - 1));
            lemma_place_row(v, x - 1);
            let k = place_order(v)[x - 1];
            lemma_place_line_reads(place_label_shown(v, x - 1), place_id_at(v, x - 1), v.places[k].tokens);
        } else if x == np + 1 {
            assert(rows[x] == Seq::<char>::empty());
        } else if x == np + 2 {
            assert(rows[x] == "[transitions]"@);
        } else {
            let j = x - np - 3;
            assert(rows[x] == transition_row(v, j));
            lemma_transition_row(v, j);
            let t = transition_order(v)[j];
            lemma_head_text_reads(transition_label_shown(v, j), transition_id_at(v, j), Seq::empty());
            lemma_transition_clean(
                head_text(transition_label_shown(v, j), transition_id_at(v, j)),
                head_label(transition_label_shown(v, j), transition_id_at(v, j)),
                transition_id_at(v, j),
                inputs_text(v, t),
                outputs_text(v, t),
                read_inputs(v, t),
                read_outputs(v, t),
            );
        }
    };
    lemma_lines_pieces(rows, Seq::empty());
    assert(lines_text(rows) + Seq::<char>::empty() =~= lines_text(rows));
    assert(pieces(Seq::<char>::empty(), '\n') == seq![Seq::<char>::empty()]);
    let l = doc_lines(dsl_text(v));
    assert(l == rows + seq![Seq::<char>::empty()]);
    assert forall|i: int| 0 <= i < np implies l[i + 1] == #[trigger] place_row(v, i) by {
        assert(rows[i + 1] == place_row(v, i));
    };
    assert forall|j: int| 0 <= j < nt implies l[np + 3 + j] == #[trigger] transition_row(v, j) by {
        assert(rows[np + 3 + j] == transition_row(v, j));
    };
}

/// The declaration read from the line of the `i`-th place.
pub open spec fn place_decl(v: ModelView, i: int) -> PlaceDecl {
    let k = place_order(v)[i];
    PlaceDecl {
        line: (i + 2) as nat,
        label: head_label(place_label_shown(v, i), place_id_at(v, i)),
        id: place_id_at(v, i),
        tokens: v.places[k].tokens,
    }
}

/// The declaration read from the line of the `j`-th transition.
pub open spec fn transition_decl(v: ModelView, j: int) -> TransitionDecl {
    let t = transition_order(v)[j];
    TransitionDecl {
        line: (place_order(v).len() + 4 + j) as nat,
        label: head_label(transition_label_shown(v, j), transition_id_at(v, j)),
        id: transition_id_at(v, j),
        inputs: read_inputs(v, t),
        outputs: read_outputs(v, t),
    }
}

/// A header or a blank line is its own clean form.
proof fn lemma_clean_fixed_lines()
    ensures
        clean_line("[places]"@) == "[places]"@,
        clean_line("[transitions]"@) == "[transitions]"@,
        clean_line(Seq::<char>::empty()) == Seq::<char>::empty(),
        "[places]"@[0] == '[',
        "[transitions]"@[0] == '[',
        "[places]"@ != "[transitions]"@,
        "[places]"@.len() > 0,
        "[transitions]"@.len() > 0,
{
    reveal_strlit("[places]");
    reveal_strlit("[transitions]");
    assert(find_char("[places]"@, '#') is None);
    assert(find_char("[transitions]"@, '#') is None);
    assert(find_char(Seq::<char>::empty(), '#') is None);
    lemma_trim_fixed("[places]"@);
    lemma_trim_fixed("[transitions]"@);
    lemma_trim_empty();
    assert("[places]"@.len() != "[transitions]"@.len());
}

/// Reading the document up to the line of the `k - 1`-th place: in the
/// places section, with the first `k - 1` places and nothing else.
proof fn lemma_scan_places(v: ModelView, k: nat)
    requires
        v.wf(),
        well_written(v),
        1 <= k <= place_order(v).len() + 1,
    ensures
        ({
            let sc = scan(doc_lines(dsl_text(v)), k);
            &&& sc.section == Section::Places
            &&& sc.places == Seq::new((k - 1) as nat, |i: int| place_decl(v, i))
            &&& sc.transitions == Seq::<TransitionDecl>::empty()
            &&& sc.errors == Seq::<(nat, Seq<char>)>::empty()
        }),
    decreases k,
{
    let l = doc_lines(dsl_text(v));
    lemma_doc_lines(v);
    lemma_clean_fixed_lines();
    if k == 1 {
        assert(l[0] == "[places]"@);
        let s0 = scan(l, 0);
        assert(s0.places == Seq::<PlaceDecl>::empty() && s0.transitions == Seq::<TransitionDecl>::empty() && s0.errors == Seq::<(nat, Seq<char>)>::empty());
        assert(scan(l, 1) == scan_line(s0, l[0], 1));
        assert(Seq::new((k - 1) as nat, |i: int| place_decl(v, i)) =~= Seq::<PlaceDecl>::empty());
    } else {
        lemma_scan_places(v, (k - 1) as nat);
        assert(scan(l, k) == scan_line(scan(l, (k - 1) as nat), l[k - 1], k));
        let i = k - 2;
        assert(l[i + 1] == place_row(v, i));
        lemma_place_row(v, i);
        let p = place_order(v)[i];
        lemma_place_line_reads(place_label_shown(v, i), place_id_at(v, i), v.places[p].tokens);
        let r = place_row(v, i);
        assert(clean_line(r) == r);
        assert(r != "[places]"@);
        assert(r != "[transitions]"@);
        assert(Seq::new((k - 2) as nat, |i: int| place_decl(v, i)).push(place_decl(v, i)) =~= Seq::new((k - 1) as nat, |i: int| place_decl(v, i)));
    }
}

/// Reading the document up to the line of the `k - np - 4`-th transition: in
/// the transitions section, with all places and the first transitions.
proof fn lemma_scan_transitions(v: ModelView, k: nat)
    requires
        v.wf(),
        well_written(v),
        place_order(v).len() + 3 <= k <= place_order(v).len() + transition_order(v).len() + 3,
    ensures
        ({
            let sc = scan(doc_lines(dsl_text(v)), k);
            let np = place_order(v).len();
            &&& sc.section == Section::Transitions
            &&& sc.places == Seq::new(np, |i: int| place_decl(v, i))
            &&& sc.transitions == Seq::new((k - np - 3) as nat, |j: int| transition_decl(v, j))
            &&& sc.errors == Seq::<(nat, Seq<char>)>::empty()
        }),
    decreases k,
{
    let l = doc_lines(dsl_text(v));
    let np = place_order(v).len();
    lemma_doc_lines(v);
    lemma_clean_fixed_lines();
    if k == np + 3 {
        lemma_scan_places(v, np + 1);
        assert(scan(l, (np + 2) as nat) == scan_line(scan(l, np + 1), l[np as int + 1], (np + 2) as nat));
        assert(scan(l, k) == scan_line(scan(l, (np + 2) as nat), l[np as int + 2], k));
        assert(l[np as int + 1] == Seq::<char>::empty());
        assert(l[np as int + 2] == "[transitions]"@);
        assert(Seq::new((k - np - 3) as nat, |j: int| transition_decl(v, j)) =~= Seq::<TransitionDecl>::empty());
    } else {
        lemma_scan_transitions(v, (k - 1) as nat);
        assert(scan(l, k) == scan_line(scan(l, (k - 1) as nat), l[k - 1], k));
        let j = k - np - 4;
        assert(l[np + 3 + j] == transition_row(v, j));
        lemma_transition_row(v, j);
        let t = transition_order(v)[j];
        let it = inputs_text(v, t);
        let ot = outputs_text(v, t);
        lemma_transition_parse(transition_label_shown(v, j), transition_id_at(v, j), it, ot, read_inputs(v, t), read_outputs(v, t));
        let c = clean_line(transition_row(v, j));
        assert(c != "[places]"@);
        assert(c != "[transitions]"@);
        assert(Seq::new((k - np - 4) as nat, |j: int| transition_decl(v, j)).push(transition_decl(v, j)) =~= Seq::new((k - np - 3) as nat, |j: int| transition_decl(v, j)));
    }
}

/// Places declared under distinct ids are all kept, with no error.
proof fn lemma_place_pass_all(ps: Seq<PlaceDecl>)
    requires
        distinct_ids(ps),
    ensures
        place_pass(ps) == (ps, Seq::<(nat, Seq<char>)>::empty()),
    decreases ps.len(),
{
    if ps.len() > 0 {
        let d = ps.drop_last();
        assert forall|a: int, b: int| 0 <= a < b < d.len() implies (#[trigger] d[a]).id != (#[trigger] d[b]).id by {
            assert(d[a] == ps[a] && d[b] == ps[b]);
        };
        lemma_place_pass_all(d);
        assert(ps.last() == ps[ps.len() - 1]);
        if has_id(d, ps.last().id) {
            let j = choose|j: int| 0 <= j < d.len() && (#[trigger] d[j]).id == ps.last().id;
            assert(d[j] == ps[j]);
        }
        assert(d.push(ps.last()) =~= ps);
    } else {
        assert(ps =~= Seq::<PlaceDecl>::empty());
    }
}

/// Arcs on declared places, no two on one place, are all kept, with no error.
proof fn lemma_input_pass_all(items: Seq<(Seq<char>, ArcKind)>, places: Seq<PlaceDecl>, line: nat)
    requires
        forall|k: int| 0 <= k < items.len() ==> has_id(places, (#[trigger] items[k]).0),
        forall|a: int, b: int| 0 <= a < b < items.len() ==> (#[trigger] items[a]).0 != (#[trigger] items[b]).0,
    ensures
        input_pass(items, places, line) == (items, Seq::<(nat, Seq<char>)>::empty()),
    decreases items.len(),
{
    if items.len() > 0 {
        let d = items.drop_last();
        assert forall|k: int| 0 <= k < d.len() implies has_id(places, (#[trigger] d[k]).0) by {
            assert(d[k] == items[k]);
        };
        assert forall|a: int, b: int| 0 <= a < b < d.len() implies (#[trigger] d[a]).0 != (#[trigger] d[b]).0 by {
            assert(d[a] == items[a] && d[b] == items[b]);
        };
        lemma_input_pass_all(d, places, line);
        assert(items.last() == items[items.len() - 1]);
        assert(has_id(places, items.last().0));
        if has_arc_id(d, items.last().0) {
            let j = choose|j: int| 0 <= j < d.len() && (#[trigger] d[j]).0 == items.last().0;
            assert(d[j] == items[j]);
        }
        assert(d.push(items.last()) =~= items);
    } else {
        assert(items =~= Seq::<(Seq<char>, ArcKind)>::empty());
    }
}

/// Output arcs on declared places, no two on one place, are all kept, with no error.
proof fn lemma_output_pass_all(items: Seq<(Seq<char>, u32)>, places: Seq<PlaceDecl>, line: nat)
    requires
        forall|k: int| 0 <= k < items.len() ==> has_id(places, (#[trigger] items[k]).0),
        forall|a: int, b: int| 0 <= a < b < items.len() ==> (#[trigger] items[a]).0 != (#[trigger] items[b]).0,
    ensures
        output_pass(items, places, line) == (items, Seq::<(nat, Seq<char>)>::empty()),
    decreases items.len(),
{
    if items.len() > 0 {
        let d = items.drop_last();
        assert forall|k: int| 0 <= k < d.len() implies has_id(places, (#[trigger] d[k]).0) by {
            assert(d[k] == items[k]);
        };
        assert forall|a: int, b: int| 0 <= a < b < d.len() implies (#[trigger] d[a]).0 != (#[trigger] d[b]).0 by {
            assert(d[a] == items[a] && d[b] == items[b]);
        };
        lemma_output_pass_all(d, places, line);
        assert(items.last() == items[items.len() - 1]);
        assert(has_id(places, items.last().0));
        if has_arc_id(d, items.last().0) {
            let j = choose|j: int| 0 <= j < d.len() && (#[trigger] d[j]).0 == items.last().0;
            assert(d[j] == items[j]);
        }
        assert(d.push(items.last()) =~= items);
    } else {
        assert(items =~= Seq::<(Seq<char>, u32)>::empty());
    }
}

/// Transitions whose arcs all pass give no arc error.
proof fn lemma_arc_errors_none(ts: Seq<TransitionDecl>, places: Seq<PlaceDecl>)
    requires
        forall|j: int| 0 <= j < ts.len() ==> input_pass((#[trigger] ts[j]).inputs, places, ts[j].line).1 == Seq::<(nat, Seq<char>)>::empty()
            && output_pass(ts[j].outputs, places, ts[j].line).1 == Seq::<(nat, Seq<char>)>::empty(),
    ensures
        arc_errors(ts, places) == Seq::<(nat, Seq<char>)>::empty(),
    decreases ts.len(),
{
    if ts.len() > 0 {
        let d = ts.drop_last();
        assert forall|j: int| 0 <= j < d.len() implies input_pass((#[trigger] d[j]).inputs, places, d[j].line).1 == Seq::<(nat, Seq<char>)>::empty()
            && output_pass(d[j].outputs, places, d[j].line).1 == Seq::<(nat, Seq<char>)>::empty() by {
            assert(d[j] == ts[j]);
        };
        lemma_arc_errors_none(d, places);
        assert(ts.last() == ts[ts.len() - 1]);
        assert(Seq::<(nat, Seq<char>)>::empty() + Seq::<(nat, Seq<char>)>::empty() + Seq::<(nat, Seq<char>)>::empty() =~= Seq::<(nat, Seq<char>)>::empty());
    }
}

/// No errors, ordered by line, are no errors.
proof fn lemma_by_line_empty(n: nat)
    ensures
        by_line(Seq::<(nat, Seq<char>)>::empty(), n) == Seq::<(nat, Seq<char>)>::empty(),
    decreases n,
{
    if n > 0 {
        lemma_by_line_empty((n - 1) as nat);
        assert(on_line(Seq::<(nat, Seq<char>)>::empty(), n) == Seq::<(nat, Seq<char>)>::empty());
        assert(Seq::<(nat, Seq<char>)>::empty() + Seq::<(nat, Seq<char>)>::empty() =~= Seq::<(nat, Seq<char>)>::empty());
    }
}

/// The place declarations of the document written for `v`.
pub open spec fn place_decls(v: ModelView) -> Seq<PlaceDecl> {
    Seq::new(place_order(v).len(), |i: int| place_decl(v, i))
}

/// The transition declarations of the document written for `v`.
pub open spec fn transition_decls(v: ModelView) -> Seq<TransitionDecl> {
    Seq::new(transition_order(v).len(), |j: int| transition_decl(v, j))
}

/// The places of `v` are declared under distinct ids, each place's label at its position.
proof fn lemma_place_decls(v: ModelView)
    requires
        v.wf(),
        well_written(v),
    ensures
        distinct_ids(place_decls(v)),
        forall|k: u64| #[trigger] v.places.dom().contains(k) ==> id_index(place_decls(v), place_written_id(v, k)) == position(place_order(v), k)
            && has_id(place_decls(v), place_written_id(v, k)),
{
    let po = place_order(v);
    let ps = place_decls(v);
    lemma_positions(v.places.dom(), po);
    assert forall|a: int, b: int| 0 <= a < b < ps.len() implies (#[trigger] ps[a]).id != (#[trigger] ps[b]).id by {
        assert(po.contains(po[a]) && po.contains(po[b]));
        assert(v.places.dom().contains(po[a]) && v.places.dom().contains(po[b]));
        assert(crate::model::slots::slot_index(po[a]) < crate::model::slots::slot_index(po[b]));
        assert(po[a] != po[b]);
        assert(place_written_id(v, po[a]) == ps[a].id);
        assert(place_written_id(v, po[b]) == ps[b].id);
    };
    assert forall|k: u64| #[trigger] v.places.dom().contains(k) implies id_index(ps, place_written_id(v, k)) == position(po, k)
        && has_id(ps, place_written_id(v, k)) by {
        let i = position(po, k);
        assert(ps[i].id == place_written_id(v, k));
        lemma_id_index(ps, place_written_id(v, k), i);
    };
}

/// The arcs of a transition of `v`, read on place ids, keyed by `pk`, are its
/// arcs on the keys `pk` gives the places' positions.
proof fn lemma_keyed_arcs(v: ModelView, t: u64, pk: Seq<u64>)
    requires
        v.wf(),
        well_written(v),
        v.transitions.dom().contains(t),
    ensures
        keyed_inputs(read_inputs(v, t), place_decls(v), pk) == v.transitions[t].inputs@.map_values(
            |a: (PlaceId, ArcKind)| (PlaceId(pk[position(place_order(v), a.0.0)]), a.1),
        ),
        keyed_outputs(read_outputs(v, t), place_decls(v), pk) == v.transitions[t].outputs@.map_values(
            |a: (PlaceId, u32)| (PlaceId(pk[position(place_order(v), a.0.0)]), a.1),
        ),
{
    let po = place_order(v);
    let ps = place_decls(v);
    lemma_place_decls(v);
    let ia = v.transitions[t].inputs@;
    let oa = v.transitions[t].outputs@;
    assert forall|k: int| 0 <= k < ia.len() implies v.places.dom().contains((#[trigger] ia[k]).0.0) by {};
    assert forall|k: int| 0 <= k < oa.len() implies v.places.dom().contains((#[trigger] oa[k]).0.0) by {};
    assert(keyed_inputs(read_inputs(v, t), ps, pk) =~= ia.map_values(|a: (PlaceId, ArcKind)| (PlaceId(pk[position(po, a.0.0)]), a.1)));
    assert(keyed_outputs(read_outputs(v, t), ps, pk) =~= oa.map_values(|a: (PlaceId, u32)| (PlaceId(pk[position(po, a.0.0)]), a.1)));
}

/// Every arc of a transition of `v` is on a declared place, no two on one,
/// so the document keeps them all.
proof fn lemma_pass_arcs(v: ModelView, t: u64, line: nat)
    requires
        v.wf(),
        well_written(v),
        v.transitions.dom().contains(t),
    ensures
        input_pass(read_inputs(v, t), place_decls(v), line) == (read_inputs(v, t), Seq::<(nat, Seq<char>)>::empty()),
        output_pass(read_outputs(v, t), place_decls(v), line) == (read_outputs(v, t), Seq::<(nat, Seq<char>)>::empty()),
{
    let ps = place_decls(v);
    lemma_place_decls(v);
    let ia = v.transitions[t].inputs@;
    let oa = v.transitions[t].outputs@;
    let ins = read_inputs(v, t);
    let outs = read_outputs(v, t);
    assert forall|k: int| 0 <= k < ins.len() implies has_id(ps, (#[trigger] ins[k]).0) by {
        assert(v.places.dom().contains(ia[k].0.0));
    };
    assert forall|a: int, b: int| 0 <= a < b < ins.len() implies (#[trigger] ins[a]).0 != (#[trigger] ins[b]).0 by {
        assert(ia[a].0 != ia[b].0);
        assert(v.places.dom().contains(ia[a].0.0) && v.places.dom().contains(ia[b].0.0));
        assert(place_written_id(v, ia[a].0.0) != place_written_id(v, ia[b].0.0));
    };
    assert forall|k: int| 0 <= k < outs.len() implies has_id(ps, (#[trigger] outs[k]).0) by {
        assert(v.places.dom().contains(oa[k].0.0));
    };
    assert forall|a: int, b: int| 0 <= a < b < outs.len() implies (#[trigger] outs[a]).0 != (#[trigger] outs[b]).0 by {
        assert(oa[a].0 != oa[b].0);
        assert(v.places.dom().contains(oa[a].0.0) && v.places.dom().contains(oa[b].0.0));
        assert(place_written_id(v, oa[a].0.0) != place_written_id(v, oa[b].0.0));
    };
    lemma_input_pass_all(ins, ps, line);
    lemma_output_pass_all(outs, ps, line);
}

/// Reading the document written for `v`: its places and transitions, and no error.
proof fn lemma_doc_reads(v: ModelView)
    requires
        v.wf(),
        well_written(v),
    ensures
        dsl_places(dsl_text(v)) == place_decls(v),
        dsl_transitions(dsl_text(v)) == transition_decls(v),
        dsl_errors(dsl_text(v)) == Seq::<(nat, Seq<char>)>::empty(),
{
    let src = dsl_text(v);
    let l = doc_lines(src);
    let np = place_order(v).len();
    let nt = transition_order(v).len();
    lemma_doc_lines(v);
    lemma_clean_fixed_lines();
    lemma_scan_transitions(v, np + nt + 3);
    assert(scan(l, np + nt + 4) == scan_line(scan(l, np + nt + 3), l[np + nt + 3 as int], np + nt + 4));
    let sc = doc_scan(src);
    assert(sc == scan(l, np + nt + 4));
    assert(sc.places == place_decls(v));
    assert(sc.transitions == transition_decls(v));
    lemma_place_decls(v);
    lemma_place_pass_all(place_decls(v));
    let ts = transition_decls(v);
    assert forall|j: int| 0 <= j < ts.len() implies input_pass((#[trigger] ts[j]).inputs, place_decls(v), ts[j].line).1 == Seq::<(nat, Seq<char>)>::empty()
        && output_pass(ts[j].outputs, place_decls(v), ts[j].line).1 == Seq::<(nat, Seq<char>)>::empty() by {
        let t = transition_order(v)[j];
        assert(transition_order(v).contains(t));
        lemma_pass_arcs(v, t, ts[j].line);
    };
    lemma_arc_errors_none(ts, place_decls(v));
    let all = sc.errors + place_pass(sc.places).1 + arc_errors(sc.transitions, place_pass(sc.places).0);
    assert(all =~= Seq::<(nat, Seq<char>)>::empty());
    lemma_by_line_empty(l.len());
}

/// Two places at different positions are written under different ids.
proof fn lemma_place_ids_differ(v: ModelView, i: int, j: int)
    requires
        place_order(v).len() < 0x1_0000_0000,
        0 <= i < place_order(v).len(),
        0 <= j < place_order(v).len(),
        i != j,
    ensures
        place_id_at(v, i) != place_id_at(v, j),
{
    let pl = place_labels(v);
    let po = place_order(v);
    assert(pl[i] == v.places[po[i]].label@);
    assert(pl[j] == v.places[po[j]].label@);
    let oi = own_id(pl, i, 'p');
    let oj = own_id(pl, j, 'p');
    if oi && oj {
        assert(pl[j] != pl[i]);
    } else if oi && !oj {
        lemma_generated_id('p', j as nat);
    } else if !oi && oj {
        lemma_generated_id('p', i as nat);
    } else {
        let gi = seq!['p'] + decimal(i as nat);
        let gj = seq!['p'] + decimal(j as nat);
        if gi == gj {
            assert(gi.drop_first() =~= decimal(i as nat));
            assert(gj.drop_first() =~= decimal(j as nat));
            lemma_decimal_parses(i as u32);
            lemma_decimal_parses(j as u32);
            assert((i as u32) as nat == i);
            assert((j as u32) as nat == j);
        }
    }
}

/// The ids the writer gives a round-trippable net are well written.
proof fn lemma_well_written(v: ModelView)
    requires
        v.wf(),
        round_trippable(v),
    ensures
        well_written(v),
{
    let po = place_order(v);
    let to = transition_order(v);
    let pl = place_labels(v);
    let tl = transition_labels(v);
    assert forall|i: int| 0 <= i < po.len()
        implies head_ok(place_label_shown(v, i), #[trigger] place_id_at(v, i)) && plain_place_label(place_id_at(v, i)) by {
        assert(pl[i] == v.places[po[i]].label@);
        assert(place_label_shown(v, i) == shown_label(v.places[po[i]].label@, place_id_at(v, i)));
        if !own_id(pl, i, 'p') {
            lemma_generated_id('p', i as nat);
        }
    };
    assert forall|j: int| 0 <= j < to.len()
        implies head_ok(transition_label_shown(v, j), #[trigger] transition_id_at(v, j)) by {
        assert(tl[j] == v.transitions[to[j]].label@);
        assert(transition_label_shown(v, j) == shown_label(v.transitions[to[j]].label@, transition_id_at(v, j)));
        if !own_id(tl, j, 't') {
            lemma_generated_id('t', j as nat);
        }
    };
    assert forall|k: u64| #[trigger] v.places.dom().contains(k) implies arc_id_ok(place_written_id(v, k)) by {
        lemma_positions(v.places.dom(), po);
        let i = position(po, k);
        assert(plain_place_label(place_id_at(v, i)));
    };
    assert forall|a: u64, b: u64| v.places.dom().contains(a) && v.places.dom().contains(b) && a != b
        implies #[trigger] place_written_id(v, a) != #[trigger] place_written_id(v, b) by {
        lemma_positions(v.places.dom(), po);
        lemma_place_ids_differ(v, position(po, a), position(po, b));
    };
    assert forall|t: u64, i: int| v.transitions.dom().contains(t) && 0 <= i < v.transitions[t].inputs@.len()
        implies arc_id_ok(place_written_id(v, (#[trigger] v.transitions[t].inputs@[i]).0.0)) by {
        assert(v.places.dom().contains(v.transitions[t].inputs@[i].0.0));
    };
    assert forall|t: u64, i: int| v.transitions.dom().contains(t) && 0 <= i < v.transitions[t].outputs@.len()
        implies arc_id_ok(place_written_id(v, (#[trigger] v.transitions[t].outputs@[i]).0.0)) by {
        assert(v.places.dom().contains(v.transitions[t].outputs@[i].0.0));
    };
}

/// `w` holds the net written for `v` under the keys `pk` and `tk`: the places
/// and transitions of `v` in slot order, each with the label written for it,
/// its tokens, and every arc with its kind and weight on the place it is on.
pub open spec fn read_back(w: ModelView, v: ModelView, pk: Seq<u64>, tk: Seq<u64>) -> bool {
    let po = place_order(v);
    let to = transition_order(v);
    &&& pk.len() == po.len()
    &&& tk.len() == to.len()
    &&& pk.no_duplicates()
    &&& tk.no_duplicates()
    &&& w.places.dom() == pk.to_set()
    &&& w.transitions.dom() == tk.to_set()
    &&& forall|i: int| 0 <= i < pk.len() ==> (#[trigger] w.places[pk[i]]).label@ == place_label_shown(v, i)
        && w.places[pk[i]].tokens == v.places[po[i]].tokens
    &&& forall|j: int| 0 <= j < tk.len() ==> {
        let d = #[trigger] w.transitions[tk[j]];
        &&& d.label@ == transition_label_shown(v, j)
        &&& d.inputs@ == v.transitions[to[j]].inputs@.map_values(|a: (PlaceId, ArcKind)| (PlaceId(pk[position(po, a.0.0)]), a.1))
        &&& d.outputs@ == v.transitions[to[j]].outputs@.map_values(|a: (PlaceId, u32)| (PlaceId(pk[position(po, a.0.0)]), a.1))
    }
}

/// Writing any net as a document and reading the document back reports no
/// error and gives the same net: as many places, with their tokens, and as
/// many transitions, with every arc of its kind and weight on the
/// corresponding place, each node under a key of its own. Every label reads
/// back as it is where it is written as its node's id or can be written in
/// quotes; a label that can be neither (one with `"`, `#`, `:` or a line break
/// that another node shares or that cannot be an id) reads back as the id
/// written for its node.
pub proof fn lemma_dsl_round_trip(v: ModelView, w: ModelView)
    requires
        v.wf(),
        round_trippable(v),
    ensures
        dsl_errors(dsl_text(v)) == Seq::<(nat, Seq<char>)>::empty(),
        dsl_fits(dsl_text(v)),
        describes(w, dsl_text(v)) ==> exists|pk: Seq<u64>, tk: Seq<u64>| read_back(w, v, pk, tk),
        forall|i: int| 0 <= i < place_order(v).len() && (place_id_at(v, i) == v.places[place_order(v)[i]].label@
            || quotable(v.places[place_order(v)[i]].label@)) ==> #[trigger] place_label_shown(v, i) == v.places[place_order(v)[i]].label@,
        forall|j: int| 0 <= j < transition_order(v).len() && (transition_id_at(v, j) == v.transitions[transition_order(v)[j]].label@
            || quotable(v.transitions[transition_order(v)[j]].label@)) ==> #[trigger] transition_label_shown(v, j)
            == v.transitions[transition_order(v)[j]].label@,
{
    lemma_well_written(v);
    lemma_doc_reads(v);
    let src = dsl_text(v);
    let ps = place_decls(v);
    let ts = transition_decls(v);
    let po = place_order(v);
    let to = transition_order(v);
    if describes(w, src) {
        let (pk, tk) = choose|pk: Seq<u64>, tk: Seq<u64>| holds_declarations(w, ps, ts, pk, tk);
        assert(holds_declarations(w, ps, ts, pk, tk));
        assert forall|i: int| 0 <= i < pk.len() implies (#[trigger] w.places[pk[i]]).label@ == place_label_shown(v, i)
            && w.places[pk[i]].tokens == v.places[po[i]].tokens by {
            assert(ps[i] == place_decl(v, i));
        };
        assert forall|j: int| 0 <= j < tk.len() implies {
            let d = #[trigger] w.transitions[tk[j]];
            &&& d.label@ == transition_label_shown(v, j)
            &&& d.inputs@ == v.transitions[to[j]].inputs@.map_values(|a: (PlaceId, ArcKind)| (PlaceId(pk[position(po, a.0.0)]), a.1))
            &&& d.outputs@ == v.transitions[to[j]].outputs@.map_values(|a: (PlaceId, u32)| (PlaceId(pk[position(po, a.0.0)]), a.1))
        } by {
            let t = to[j];
            assert(to.contains(t));
            assert(ts[j] == transition_decl(v, j));
            lemma_pass_arcs(v, t, ts[j].line);
            lemma_keyed_arcs(v, t, pk);
        };
        assert(read_back(w, v, pk, tk));
    }
}

} // verus!
