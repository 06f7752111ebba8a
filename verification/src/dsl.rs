//! A small deterministic text format for writing an editable net by hand: a
//! `[places]` section and a `[transitions]` section, one declaration per line.
//!
//! ```text
//! [places]
//! "pedido esperando M1" <a>
//! "M1 inactiva" <d> tokens=1
//!
//! [transitions]
//! "F1 inicia M1" <2>: @a, @d -> @i
//! ```
//!
//! Every function here works on sequences of characters; the grammar is
//! stated line by line as spec functions, and the parser is proved to follow it.
use vstd::prelude::*;

use crate::model::{has_place, ArcKind, ModelView, PetriNet, PlaceId, TransitionId};
use crate::analysis::{lemma_place_ids_in_order, lemma_transition_ids_in_order, place_order, position, transition_order};
use crate::text::{
    chars_of, concat, decimal, find, find_char, has_char, is_whitespace, lemma_find_char_facts, parse_u32, parse_u32_spec,
    same_chars, slice_of, trim, trim_start, trimmed, trimmed_start,
};

verus! {

/// Tokens of `value`, the part after `tokens=`; weights when nothing follows a modifier.
pub open spec fn weight_of(n: Seq<char>) -> Result<u32, Seq<char>> {
    if n.len() == 0 {
        Ok(1)
    } else {
        match parse_u32_spec(n) {
            Some(w) => Ok(w),
            None => Err("peso inválido \""@ + n + "\""@),
        }
    }
}

/// `s` begins with `p`.
pub open spec fn starts_with(s: Seq<char>, p: Seq<char>) -> bool {
    s.len() >= p.len() && s.take(p.len() as int) == p
}

/// Position of the first modifier (`*`, `~` or `!`) in `s`, if any.
pub open spec fn find_modifier(s: Seq<char>) -> Option<int> {
    if exists|i: int| 0 <= i < s.len() && is_modifier(s[i]) {
        Some(choose|i: int| 0 <= i < s.len() && is_modifier(s[i]) && forall|j: int| 0 <= j < i ==> !is_modifier(s[j]))
    } else {
        None
    }
}

/// `c` is one of the arc modifiers `*`, `~`, `!`.
pub open spec fn is_modifier(c: char) -> bool {
    c == '*' || c == '~' || c == '!'
}

/// An arrow `->` starts at position `i` of `s`.
pub open spec fn arrow_at(s: Seq<char>, i: int) -> bool {
    0 <= i < s.len() - 1 && s[i] == '-' && s[i + 1] == '>'
}

/// Position of the first `->` in `s`, if any.
pub open spec fn find_arrow(s: Seq<char>) -> Option<int> {
    if exists|i: int| #[trigger] arrow_at(s, i) {
        Some(choose|i: int| #[trigger] arrow_at(s, i) && forall|j: int| 0 <= j < i ==> !#[trigger] arrow_at(s, j))
    } else {
        None
    }
}

/// The head shared by place and transition lines, `["label"] <id>`: the
/// label if one is quoted, the id between `<` and `>` (trimmed, not empty),
/// and what follows the `>` (trimmed).
pub open spec fn label_and_id(s: Seq<char>) -> Result<(Option<Seq<char>>, Seq<char>, Seq<char>), Seq<char>> {
    let r = trim_start(s);
    if r.len() > 0 && r[0] == '"' {
        let q = r.drop_first();
        match find_char(q, '"') {
            None => Err("comilla sin cerrar"@),
            Some(e) => id_part(Some(q.take(e)), trim_start(q.skip(e + 1))),
        }
    } else {
        id_part(None, r)
    }
}

/// The `<id> rest` part of a declaration head.
pub open spec fn id_part(label: Option<Seq<char>>, r: Seq<char>) -> Result<(Option<Seq<char>>, Seq<char>, Seq<char>), Seq<char>> {
    if !(r.len() > 0 && r[0] == '<') {
        Err("falta '<id>'"@)
    } else {
        let a = r.drop_first();
        match find_char(a, '>') {
            None => Err("falta '>' después del id"@),
            Some(c) => {
                let id = trim(a.take(c));
                if id.len() == 0 {
                    Err("id vacío en <...>"@)
                } else {
                    Ok((label, id, trim(a.skip(c + 1))))
                }
            },
        }
    }
}

/// A line of the `[places]` section: `["label"] <id> [tokens=N]`.
#[verifier::opaque]
pub open spec fn place_line(line: Seq<char>) -> Result<(Option<Seq<char>>, Seq<char>, u32), Seq<char>> {
    match label_and_id(line) {
        Err(m) => Err(m),
        Ok((label, id, rest)) => if rest.len() == 0 {
            Ok((label, id, 0u32))
        } else if !starts_with(rest, "tokens="@) {
            Err("texto inesperado \""@ + rest + "\""@)
        } else {
            let value = rest.skip("tokens="@.len() as int);
            match parse_u32_spec(trim(value)) {
                Some(n) => Ok((label, id, n)),
                None => Err("tokens inválido \""@ + value + "\""@),
            }
        },
    }
}

/// The pieces of `s` between occurrences of `sep` (one more piece than there are separators).
pub open spec fn pieces(s: Seq<char>, sep: char) -> Seq<Seq<char>>
    decreases s.len(),
{
    if s.len() == 0 {
        seq![Seq::empty()]
    } else {
        let p = pieces(s.drop_last(), sep);
        if s.last() == sep {
            p.push(Seq::empty())
        } else {
            p.update(p.len() - 1, p.last().push(s.last()))
        }
    }
}

/// The comma-separated items of a list, each trimmed; an empty list is
/// allowed, an empty item is not.
pub open spec fn list_items(s: Seq<char>) -> Result<Seq<Seq<char>>, Seq<char>> {
    let t = trim(s);
    if t.len() == 0 {
        Ok(Seq::empty())
    } else {
        let ps = pieces(t, ',');
        if exists|k: int| 0 <= k < ps.len() && trim(#[trigger] ps[k]).len() == 0 {
            Err("elemento vacío en la lista"@)
        } else {
            Ok(ps.map_values(|p: Seq<char>| trim(p)))
        }
    }
}

/// `@` missing before a place reference.
pub open spec fn missing_at(tok: Seq<char>) -> Seq<char> {
    "falta '@' antes de \""@ + tok + "\""@
}

/// One item of a transition's input list: `@id`, `@id*N`, `@id~[N]`, `@id![N]`.
pub open spec fn input_item(tok: Seq<char>) -> Result<(Seq<char>, ArcKind), Seq<char>> {
    if !(tok.len() > 0 && tok[0] == '@') {
        Err(missing_at(tok))
    } else {
        let r = tok.drop_first();
        match find_modifier(r) {
            None => Ok((r, ArcKind::Consume(1))),
            Some(i) => match weight_of(r.skip(i + 1)) {
                Err(m) => Err(m),
                Ok(w) => Ok(
                    (
                        r.take(i),
                        if r[i] == '*' {
                            ArcKind::Consume(w)
                        } else if r[i] == '~' {
                            ArcKind::Peek(w)
                        } else {
                            ArcKind::Inhibit(w)
                        },
                    ),
                ),
            },
        }
    }
}

/// One item of a transition's output list: `@id` or `@id*N`.
pub open spec fn output_item(tok: Seq<char>) -> Result<(Seq<char>, u32), Seq<char>> {
    if !(tok.len() > 0 && tok[0] == '@') {
        Err(missing_at(tok))
    } else {
        let r = tok.drop_first();
        match find_modifier(r) {
            None => Ok((r, 1u32)),
            Some(i) => if r[i] == '*' {
                match weight_of(r.skip(i + 1)) {
                    Err(m) => Err(m),
                    Ok(w) => Ok((r.take(i), w)),
                }
            } else {
                Err("modificador '"@ + seq![r[i]] + "' inválido en salida"@)
            },
        }
    }
}

/// The input items in order, or the error of the first item that has one.
pub open spec fn input_items(items: Seq<Seq<char>>) -> Result<Seq<(Seq<char>, ArcKind)>, Seq<char>>
    decreases items.len(),
{
    if items.len() == 0 {
        Ok(Seq::empty())
    } else {
        match input_items(items.drop_last()) {
            Err(m) => Err(m),
            Ok(xs) => match input_item(items.last()) {
                Err(m) => Err(m),
                Ok(x) => Ok(xs.push(x)),
            },
        }
    }
}

/// The output items in order, or the error of the first item that has one.
pub open spec fn output_items(items: Seq<Seq<char>>) -> Result<Seq<(Seq<char>, u32)>, Seq<char>>
    decreases items.len(),
{
    if items.len() == 0 {
        Ok(Seq::empty())
    } else {
        match output_items(items.drop_last()) {
            Err(m) => Err(m),
            Ok(xs) => match output_item(items.last()) {
                Err(m) => Err(m),
                Ok(x) => Ok(xs.push(x)),
            },
        }
    }
}

/// A transition's input list.
pub open spec fn input_list(s: Seq<char>) -> Result<Seq<(Seq<char>, ArcKind)>, Seq<char>> {
    match list_items(s) {
        Err(m) => Err(m),
        Ok(items) => input_items(items),
    }
}

/// A transition's output list.
pub open spec fn output_list(s: Seq<char>) -> Result<Seq<(Seq<char>, u32)>, Seq<char>> {
    match list_items(s) {
        Err(m) => Err(m),
        Ok(items) => output_items(items),
    }
}

/// What a transition line declares: label, id, inputs and outputs.
pub type TransitionParts = (Option<Seq<char>>, Seq<char>, Seq<(Seq<char>, ArcKind)>, Seq<(Seq<char>, u32)>);

/// A line of the `[transitions]` section:
/// `["label"] <id>: inputs -> outputs`, each list comma separated.
#[verifier::opaque]
pub open spec fn transition_line(line: Seq<char>) -> Result<TransitionParts, Seq<char>> {
    match find_char(line, ':') {
        None => Err("falta ':' antes de las entradas"@),
        Some(c) => {
            let tail = line.skip(c + 1);
            match label_and_id(trim(line.take(c))) {
                Err(m) => Err(m),
                Ok((label, id, rest)) => if rest.len() > 0 {
                    Err("texto inesperado \""@ + rest + "\" antes de ':'"@)
                } else {
                    match find_arrow(tail) {
                        None => Err("falta '->'"@),
                        Some(a) => {
                            let after = tail.skip(a + 2);
                            if find_arrow(after) is Some {
                                Err("más de un '->' en la línea"@)
                            } else {
                                match input_list(tail.take(a)) {
                                    Err(m) => Err(m),
                                    Ok(ins) => match output_list(after) {
                                        Err(m) => Err(m),
                                        Ok(outs) => Ok((label, id, ins, outs)),
                                    },
                                }
                            }
                        },
                    }
                },
            }
        },
    }
}

/// The views of a sequence of character vectors.
pub open spec fn seqs(v: Seq<Vec<char>>) -> Seq<Seq<char>> {
    v.map_values(|x: Vec<char>| x@)
}

/// The view of an optional character vector.
pub open spec fn opt_view(o: Option<Vec<char>>) -> Option<Seq<char>> {
    match o {
        Some(v) => Some(v@),
        None => None,
    }
}

/// The views of parsed input items.
pub open spec fn inputs_view(v: Seq<(Vec<char>, ArcKind)>) -> Seq<(Seq<char>, ArcKind)> {
    v.map_values(|x: (Vec<char>, ArcKind)| (x.0@, x.1))
}

/// The views of parsed output items.
pub open spec fn outputs_view(v: Seq<(Vec<char>, u32)>) -> Seq<(Seq<char>, u32)> {
    v.map_values(|x: (Vec<char>, u32)| (x.0@, x.1))
}

/// The message `prefix`, `x`, `suffix`.
fn message(prefix: &str, x: &Vec<char>, suffix: &str) -> (m: Vec<char>)
    ensures
        m@ == prefix@ + x@ + suffix@,
{
    let a = chars_of(prefix);
    let b = chars_of(suffix);
    let ax = concat(&a, x);
    concat(&ax, &b)
}

/// The weight written after a modifier (one when nothing is written).
fn parse_weight(n: &Vec<char>) -> (r: Result<u32, Vec<char>>)
    ensures
        match r {
            Ok(w) => weight_of(n@) == Ok::<u32, Seq<char>>(w),
            Err(m) => weight_of(n@) == Err::<u32, Seq<char>>(m@),
        },
{
    if n.len() == 0 {
        return Ok(1);
    }
    match parse_u32(n) {
        Some(w) => Ok(w),
        None => Err(message("peso inválido \"", n, "\"")),
    }
}

/// `i` is where the first modifier in `s` stands.
pub proof fn lemma_find_modifier(s: Seq<char>, i: int)
    requires
        0 <= i < s.len(),
        is_modifier(s[i]),
        forall|j: int| 0 <= j < i ==> !is_modifier(s[j]),
    ensures
        find_modifier(s) == Some(i),
{
    let k = choose|k: int| 0 <= k < s.len() && is_modifier(s[k]) && forall|j: int| 0 <= j < k ==> !is_modifier(s[j]);
    assert(0 <= k < s.len() && is_modifier(s[k]) && forall|j: int| 0 <= j < k ==> !is_modifier(s[j]));
    if k < i {
        assert(!is_modifier(s[k]));
    }
    if i < k {
        assert(!is_modifier(s[i]));
    }
}

/// Position of the first modifier in `v`, if any.
fn find_mod(v: &Vec<char>) -> (r: Option<usize>)
    ensures
        r matches Some(i) ==> i < v@.len() && find_modifier(v@) == Some(i as int),
        r is None ==> find_modifier(v@) is None,
{
    let mut i: usize = 0;
    while i < v.len()
        invariant
            i <= v@.len(),
            forall|j: int| 0 <= j < i ==> !is_modifier(v@[j]),
        decreases v@.len() - i,
    {
        let c = v[i];
        if c == '*' || c == '~' || c == '!' {
            proof {
                lemma_find_modifier(v@, i as int);
            }
            return Some(i);
        }
        i += 1;
    }
    None
}

/// `i` is where the first arrow in `s` starts.
pub proof fn lemma_find_arrow(s: Seq<char>, i: int)
    requires
        arrow_at(s, i),
        forall|j: int| 0 <= j < i ==> !arrow_at(s, j),
    ensures
        find_arrow(s) == Some(i),
{
    let k = choose|k: int| #[trigger] arrow_at(s, k) && forall|j: int| 0 <= j < k ==> !#[trigger] arrow_at(s, j);
    assert(arrow_at(s, k) && forall|j: int| 0 <= j < k ==> !#[trigger] arrow_at(s, j));
    if k < i {
        assert(!arrow_at(s, k));
    }
    if i < k {
        assert(!arrow_at(s, i));
    }
}

/// Position of the first `->` in `v`, if any.
fn find_arrow_in(v: &Vec<char>) -> (r: Option<usize>)
    ensures
        r matches Some(i) ==> i + 2 <= v@.len() && find_arrow(v@) == Some(i as int),
        r is None ==> find_arrow(v@) is None,
{
    let mut i: usize = 0;
    while v.len() - i >= 2
        invariant
            i <= v@.len(),
            forall|j: int| 0 <= j < i ==> !#[trigger] arrow_at(v@, j),
        decreases v@.len() - i,
    {
        if v[i] == '-' && v[i + 1] == '>' {
            proof {
                lemma_find_arrow(v@, i as int);
            }
            return Some(i);
        }
        i += 1;
    }
    proof {
        assert forall|j: int| !#[trigger] arrow_at(v@, j) by {
            if 0 <= j < i {
            }
        };
    }
    None
}

/// Reads the `<id> rest` part of a declaration head.
fn parse_id_part(label: Option<Vec<char>>, r: &Vec<char>) -> (res: Result<(Option<Vec<char>>, Vec<char>, Vec<char>), Vec<char>>)
    ensures
        match res {
            Ok(h) => id_part(opt_view(label), r@) == Ok::<_, Seq<char>>((opt_view(h.0), h.1@, h.2@)),
            Err(m) => id_part(opt_view(label), r@) == Err::<(Option<Seq<char>>, Seq<char>, Seq<char>), _>(m@),
        },
{
    if !(r.len() > 0 && r[0] == '<') {
        return Err(chars_of("falta '<id>'"));
    }
    let a = slice_of(r, 1, r.len());
    assert(a@ == r@.drop_first());
    match find(&a, '>') {
        None => Err(chars_of("falta '>' después del id")),
        Some(c) => {
            let inner = slice_of(&a, 0, c);
            let id = trimmed(&inner);
            if id.len() == 0 {
                return Err(chars_of("id vacío en <...>"));
            }
            let after = slice_of(&a, c + 1, a.len());
            let rest = trimmed(&after);
            Ok((label, id, rest))
        },
    }
}

/// Reads a declaration head `["label"] <id> rest`.
fn parse_label_and_id(s: &Vec<char>) -> (res: Result<(Option<Vec<char>>, Vec<char>, Vec<char>), Vec<char>>)
    ensures
        match res {
            Ok(h) => label_and_id(s@) == Ok::<_, Seq<char>>((opt_view(h.0), h.1@, h.2@)),
            Err(m) => label_and_id(s@) == Err::<(Option<Seq<char>>, Seq<char>, Seq<char>), _>(m@),
        },
{
    let r = trimmed_start(s);
    if r.len() > 0 && r[0] == '"' {
        let q = slice_of(&r, 1, r.len());
        assert(q@ == r@.drop_first());
        match find(&q, '"') {
            None => Err(chars_of("comilla sin cerrar")),
            Some(e) => {
                let label = slice_of(&q, 0, e);
                let after = slice_of(&q, e + 1, q.len());
                let rest = trimmed_start(&after);
                parse_id_part(Some(label), &rest)
            },
        }
    } else {
        parse_id_part(None, &r)
    }
}

/// Reads a line of the `[places]` section.
fn parse_place_line(line: &Vec<char>) -> (res: Result<(Option<Vec<char>>, Vec<char>, u32), Vec<char>>)
    ensures
        match res {
            Ok(p) => place_line(line@) == Ok::<_, Seq<char>>((opt_view(p.0), p.1@, p.2)),
            Err(m) => place_line(line@) == Err::<(Option<Seq<char>>, Seq<char>, u32), _>(m@),
        },
{
    reveal(place_line);
    match parse_label_and_id(line) {
        Err(m) => Err(m),
        Ok((label, id, rest)) => {
            if rest.len() == 0 {
                return Ok((label, id, 0));
            }
            let prefix = chars_of("tokens=");
            if !(rest.len() >= prefix.len() && same_chars(&slice_of(&rest, 0, prefix.len()), &prefix)) {
                return Err(message("texto inesperado \"", &rest, "\""));
            }
            let value = slice_of(&rest, prefix.len(), rest.len());
            match parse_u32(&trimmed(&value)) {
                Some(n) => Ok((label, id, n)),
                None => Err(message("tokens inválido \"", &value, "\"")),
            }
        },
    }
}

/// The pieces of `s` between occurrences of `sep`.
fn split_pieces(s: &Vec<char>, sep: char) -> (parts: Vec<Vec<char>>)
    ensures
        seqs(parts@) == pieces(s@, sep),
        parts@.len() <= s@.len() + 1,
{
    let mut parts: Vec<Vec<char>> = Vec::new();
    let mut cur: Vec<char> = Vec::new();
    let mut i: usize = 0;
    assert(s@.take(0) =~= Seq::<char>::empty());
    assert(seqs(parts@).push(cur@) =~= seq![Seq::<char>::empty()]);
    while i < s.len()
        invariant
            i <= s@.len(),
            seqs(parts@).push(cur@) == pieces(s@.take(i as int), sep),
            parts@.len() <= i,
        decreases s@.len() - i,
    {
        let c = s[i];
        let ghost before = seqs(parts@).push(cur@);
        assert(s@.take(i + 1).drop_last() =~= s@.take(i as int));
        if c == sep {
            parts.push(cur);
            cur = Vec::new();
            assert(seqs(parts@).push(cur@) =~= before.push(Seq::empty()));
        } else {
            cur.push(c);
            assert(seqs(parts@).push(cur@) =~= before.update(before.len() - 1, before.last().push(c)));
        }
        i += 1;
    }
    assert(s@.take(s@.len() as int) =~= s@);
    let ghost all = seqs(parts@).push(cur@);
    parts.push(cur);
    assert(seqs(parts@) =~= all);
    parts
}

/// Reads the comma-separated items of a list.
fn parse_list_items(s: &Vec<char>) -> (res: Result<Vec<Vec<char>>, Vec<char>>)
    ensures
        match res {
            Ok(v) => list_items(s@) == Ok::<_, Seq<char>>(seqs(v@)),
            Err(m) => list_items(s@) == Err::<Seq<Seq<char>>, _>(m@),
        },
{
    let t = trimmed(s);
    if t.len() == 0 {
        let v: Vec<Vec<char>> = Vec::new();
        assert(seqs(v@) =~= Seq::<Seq<char>>::empty());
        return Ok(v);
    }
    let ps = split_pieces(&t, ',');
    let ghost pv = seqs(ps@);
    let mut items: Vec<Vec<char>> = Vec::new();
    let mut k: usize = 0;
    while k < ps.len()
        invariant
            k <= ps@.len(),
            pv == seqs(ps@),
            pv == pieces(t@, ','),
            t@ == trim(s@),
            t@.len() > 0,
            pv.len() == ps@.len(),
            seqs(items@) == pv.take(k as int).map_values(|p: Seq<char>| trim(p)),
            forall|j: int| 0 <= j < k ==> trim(#[trigger] pv[j]).len() > 0,
        decreases ps@.len() - k,
    {
        let p = trimmed(&ps[k]);
        assert(pv[k as int] == ps@[k as int]@);
        if p.len() == 0 {
            assert(trim(pv[k as int]).len() == 0);
            return Err(chars_of("elemento vacío en la lista"));
        }
        let ghost before = seqs(items@);
        items.push(p);
        assert(seqs(items@) =~= before.push(trim(pv[k as int])));
        k += 1;
        assert(pv.take(k as int).map_values(|p: Seq<char>| trim(p)) =~= pv.take(k - 1).map_values(|p: Seq<char>| trim(p)).push(trim(pv[k - 1])));
    }
    assert(pv.take(k as int) =~= pv);
    Ok(items)
}

/// Reads one item of an input list.
fn parse_input_item(tok: &Vec<char>) -> (res: Result<(Vec<char>, ArcKind), Vec<char>>)
    ensures
        match res {
            Ok(x) => input_item(tok@) == Ok::<_, Seq<char>>((x.0@, x.1)),
            Err(m) => input_item(tok@) == Err::<(Seq<char>, ArcKind), _>(m@),
        },
{
    if !(tok.len() > 0 && tok[0] == '@') {
        return Err(message("falta '@' antes de \"", tok, "\""));
    }
    let r = slice_of(tok, 1, tok.len());
    assert(r@ == tok@.drop_first());
    match find_mod(&r) {
        None => Ok((r, ArcKind::Consume(1))),
        Some(i) => {
            let n = slice_of(&r, i + 1, r.len());
            match parse_weight(&n) {
                Err(m) => Err(m),
                Ok(w) => {
                    let c = r[i];
                    let id = slice_of(&r, 0, i);
                    let kind = if c == '*' {
                        ArcKind::Consume(w)
                    } else if c == '~' {
                        ArcKind::Peek(w)
                    } else {
                        ArcKind::Inhibit(w)
                    };
                    Ok((id, kind))
                },
            }
        },
    }
}

/// Reads one item of an output list.
fn parse_output_item(tok: &Vec<char>) -> (res: Result<(Vec<char>, u32), Vec<char>>)
    ensures
        match res {
            Ok(x) => output_item(tok@) == Ok::<_, Seq<char>>((x.0@, x.1)),
            Err(m) => output_item(tok@) == Err::<(Seq<char>, u32), _>(m@),
        },
{
    if !(tok.len() > 0 && tok[0] == '@') {
        return Err(message("falta '@' antes de \"", tok, "\""));
    }
    let r = slice_of(tok, 1, tok.len());
    assert(r@ == tok@.drop_first());
    match find_mod(&r) {
        None => Ok((r, 1)),
        Some(i) => {
            let c = r[i];
            if c == '*' {
                let n = slice_of(&r, i + 1, r.len());
                match parse_weight(&n) {
                    Err(m) => Err(m),
                    Ok(w) => Ok((slice_of(&r, 0, i), w)),
                }
            } else {
                let mut one: Vec<char> = Vec::new();
                one.push(c);
                assert(one@ =~= seq![r@[i as int]]);
                Err(message("modificador '", &one, "' inválido en salida"))
            }
        },
    }
}

/// Once a prefix of the items has an error, the whole list has that error.
proof fn lemma_input_items_err(items: Seq<Seq<char>>, k: int)
    requires
        0 <= k <= items.len(),
        input_items(items.take(k)) is Err,
    ensures
        input_items(items) == input_items(items.take(k)),
    decreases items.len() - k,
{
    if k < items.len() {
        assert(items.take(k + 1).drop_last() =~= items.take(k));
        lemma_input_items_err(items, k + 1);
    } else {
        assert(items.take(k) =~= items);
    }
}

/// Once a prefix of the items has an error, the whole list has that error.
proof fn lemma_output_items_err(items: Seq<Seq<char>>, k: int)
    requires
        0 <= k <= items.len(),
        output_items(items.take(k)) is Err,
    ensures
        output_items(items) == output_items(items.take(k)),
    decreases items.len() - k,
{
    if k < items.len() {
        assert(items.take(k + 1).drop_last() =~= items.take(k));
        lemma_output_items_err(items, k + 1);
    } else {
        assert(items.take(k) =~= items);
    }
}

/// Reads a transition's input list.
fn parse_input_list(s: &Vec<char>) -> (res: Result<Vec<(Vec<char>, ArcKind)>, Vec<char>>)
    ensures
        match res {
            Ok(v) => input_list(s@) == Ok::<_, Seq<char>>(inputs_view(v@)),
            Err(m) => input_list(s@) == Err::<Seq<(Seq<char>, ArcKind)>, _>(m@),
        },
{
    let items = match parse_list_items(s) {
        Err(m) => {
            return Err(m);
        },
        Ok(items) => items,
    };
    let ghost iv = seqs(items@);
    let mut out: Vec<(Vec<char>, ArcKind)> = Vec::new();
    let mut k: usize = 0;
    assert(iv.take(0) =~= Seq::<Seq<char>>::empty());
    assert(inputs_view(out@) =~= Seq::<(Seq<char>, ArcKind)>::empty());
    while k < items.len()
        invariant
            k <= items@.len(),
            iv == seqs(items@),
            list_items(s@) == Ok::<_, Seq<char>>(iv),
            iv.len() == items@.len(),
            input_items(iv.take(k as int)) == Ok::<_, Seq<char>>(inputs_view(out@)),
        decreases items@.len() - k,
    {
        assert(iv.take(k + 1).drop_last() =~= iv.take(k as int));
        assert(iv.take(k + 1).last() == items@[k as int]@);
        match parse_input_item(&items[k]) {
            Err(m) => {
                proof {
                    lemma_input_items_err(iv, k + 1);
                }
                return Err(m);
            },
            Ok(x) => {
                let ghost xs = inputs_view(out@);
                out.push(x);
                assert(inputs_view(out@) =~= xs.push((x.0@, x.1)));
            },
        }
        k += 1;
    }
    assert(iv.take(k as int) =~= iv);
    Ok(out)
}

/// Reads a transition's output list.
fn parse_output_list(s: &Vec<char>) -> (res: Result<Vec<(Vec<char>, u32)>, Vec<char>>)
    ensures
        match res {
            Ok(v) => output_list(s@) == Ok::<_, Seq<char>>(outputs_view(v@)),
            Err(m) => output_list(s@) == Err::<Seq<(Seq<char>, u32)>, _>(m@),
        },
{
    let items = match parse_list_items(s) {
        Err(m) => {
            return Err(m);
        },
        Ok(items) => items,
    };
    let ghost iv = seqs(items@);
    let mut out: Vec<(Vec<char>, u32)> = Vec::new();
    let mut k: usize = 0;
    assert(iv.take(0) =~= Seq::<Seq<char>>::empty());
    assert(outputs_view(out@) =~= Seq::<(Seq<char>, u32)>::empty());
    while k < items.len()
        invariant
            k <= items@.len(),
            iv == seqs(items@),
            list_items(s@) == Ok::<_, Seq<char>>(iv),
            iv.len() == items@.len(),
            output_items(iv.take(k as int)) == Ok::<_, Seq<char>>(outputs_view(out@)),
        decreases items@.len() - k,
    {
        assert(iv.take(k + 1).drop_last() =~= iv.take(k as int));
        assert(iv.take(k + 1).last() == items@[k as int]@);
        match parse_output_item(&items[k]) {
            Err(m) => {
                proof {
                    lemma_output_items_err(iv, k + 1);
                }
                return Err(m);
            },
            Ok(x) => {
                let ghost xs = outputs_view(out@);
                out.push(x);
                assert(outputs_view(out@) =~= xs.push((x.0@, x.1)));
            },
        }
        k += 1;
    }
    assert(iv.take(k as int) =~= iv);
    Ok(out)
}

/// What a transition line declares, as read.
struct RawParts {
    label: Option<Vec<char>>,
    id: Vec<char>,
    inputs: Vec<(Vec<char>, ArcKind)>,
    outputs: Vec<(Vec<char>, u32)>,
}

impl RawParts {
    spec fn view(&self) -> TransitionParts {
        (opt_view(self.label), self.id@, inputs_view(self.inputs@), outputs_view(self.outputs@))
    }
}

/// Reads a line of the `[transitions]` section.
#[verifier::spinoff_prover]
#[verifier::rlimit(80)]
fn parse_transition_line(line: &Vec<char>) -> (res: Result<RawParts, Vec<char>>)
    ensures
        match res {
            Ok(t) => transition_line(line@) == Ok::<_, Seq<char>>(t.view()),
            Err(m) => transition_line(line@) == Err::<TransitionParts, _>(m@),
        },
{
    reveal(transition_line);
    let c = match find(line, ':') {
        None => {
            return Err(chars_of("falta ':' antes de las entradas"));
        },
        Some(c) => c,
    };
    let n = line.len();
    let head = trimmed(&slice_of(line, 0, c));
    let tail = slice_of(line, c + 1, n);
    let (label, id, rest) = match parse_label_and_id(&head) {
        Err(m) => {
            return Err(m);
        },
        Ok(h) => h,
    };
    if rest.len() > 0 {
        return Err(message("texto inesperado \"", &rest, "\" antes de ':'"));
    }
    let a = match find_arrow_in(&tail) {
        None => {
            return Err(chars_of("falta '->'"));
        },
        Some(a) => a,
    };
    let after = slice_of(&tail, a + 2, tail.len());
    if find_arrow_in(&after).is_some() {
        return Err(chars_of("más de un '->' en la línea"));
    }
    let inputs = match parse_input_list(&slice_of(&tail, 0, a)) {
        Err(m) => {
            return Err(m);
        },
        Ok(v) => v,
    };
    let outputs = match parse_output_list(&after) {
        Err(m) => {
            return Err(m);
        },
        Ok(v) => v,
    };
    Ok(RawParts { label, id, inputs, outputs })
}

/// The section a line of the document falls in.
#[derive(Clone, Copy, PartialEq, Eq, Debug, Structural)]
pub enum Section {
    /// Before the first header.
    Preamble,
    Places,
    Transitions,
}

/// A place declaration as read from line `line`.
pub struct PlaceDecl {
    pub line: nat,
    pub label: Option<Seq<char>>,
    pub id: Seq<char>,
    pub tokens: u32,
}

/// A transition declaration as read from line `line`.
pub struct TransitionDecl {
    pub line: nat,
    pub label: Option<Seq<char>>,
    pub id: Seq<char>,
    pub inputs: Seq<(Seq<char>, ArcKind)>,
    pub outputs: Seq<(Seq<char>, u32)>,
}

/// What reading the lines of a document so far has found: the current
/// section, the declarations, and the errors of single lines, all in order.
pub struct Scan {
    pub section: Section,
    pub places: Seq<PlaceDecl>,
    pub transitions: Seq<TransitionDecl>,
    pub errors: Seq<(nat, Seq<char>)>,
}

/// A line without its comment (from the first `#`) and without white space at either end.
pub open spec fn clean_line(l: Seq<char>) -> Seq<char> {
    match find_char(l, '#') {
        Some(i) => trim(l.take(i)),
        None => trim(l),
    }
}

/// `st` with the error `m` on line `no` added.
pub open spec fn with_error(st: Scan, no: nat, m: Seq<char>) -> Scan {
    Scan { section: st.section, places: st.places, transitions: st.transitions, errors: st.errors.push((no, m)) }
}

/// `st` now in section `sec`.
pub open spec fn in_section(st: Scan, sec: Section) -> Scan {
    Scan { section: sec, places: st.places, transitions: st.transitions, errors: st.errors }
}

/// Reading line number `no` (counted from one), whose text is `raw`: blank
/// lines and comments are skipped, a header switches section, a declaration
/// is read by the grammar of its section, and anything else is an error of the line.
pub open spec fn scan_line(st: Scan, raw: Seq<char>, no: nat) -> Scan {
    let l = clean_line(raw);
    if l.len() == 0 {
        st
    } else if l == "[places]"@ {
        in_section(st, Section::Places)
    } else if l == "[transitions]"@ {
        in_section(st, Section::Transitions)
    } else {
        match st.section {
            Section::Preamble => with_error(st, no, "contenido antes de [places] o [transitions]"@),
            Section::Places => if l.contains(':') {
                with_error(st, no, "forma de transición dentro de [places] (¿falta el header [transitions]?)"@)
            } else {
                match place_line(l) {
                    Ok((label, id, tokens)) => Scan {
                        section: st.section,
                        places: st.places.push(PlaceDecl { line: no, label, id, tokens }),
                        transitions: st.transitions,
                        errors: st.errors,
                    },
                    Err(m) => with_error(st, no, m),
                }
            },
            Section::Transitions => if !l.contains(':') {
                with_error(st, no, "falta ':' (forma de lugar dentro de [transitions])"@)
            } else {
                match transition_line(l) {
                    Ok((label, id, inputs, outputs)) => Scan {
                        section: st.section,
                        places: st.places,
                        transitions: st.transitions.push(TransitionDecl { line: no, label, id, inputs, outputs }),
                        errors: st.errors,
                    },
                    Err(m) => with_error(st, no, m),
                }
            },
        }
    }
}

/// Reading the first `n` lines.
pub open spec fn scan(lines: Seq<Seq<char>>, n: nat) -> Scan
    decreases n,
{
    if n == 0 {
        Scan { section: Section::Preamble, places: Seq::empty(), transitions: Seq::empty(), errors: Seq::empty() }
    } else {
        scan_line(scan(lines, (n - 1) as nat), lines[n - 1], n)
    }
}

/// The lines of a document.
pub open spec fn doc_lines(src: Seq<char>) -> Seq<Seq<char>> {
    pieces(src, '\n')
}

/// Reading the whole document line by line.
pub open spec fn doc_scan(src: Seq<char>) -> Scan {
    scan(doc_lines(src), doc_lines(src).len())
}

/// Some place of `ps` is declared with id `id`.
pub open spec fn has_id(ps: Seq<PlaceDecl>, id: Seq<char>) -> bool {
    exists|j: int| 0 <= j < ps.len() && (#[trigger] ps[j]).id == id
}

/// The places that are declared for the first time, in order, and an error
/// for every later declaration of an id already taken.
pub open spec fn place_pass(ps: Seq<PlaceDecl>) -> (Seq<PlaceDecl>, Seq<(nat, Seq<char>)>)
    decreases ps.len(),
{
    if ps.len() == 0 {
        (Seq::empty(), Seq::empty())
    } else {
        let r = place_pass(ps.drop_last());
        let p = ps.last();
        if has_id(r.0, p.id) {
            (r.0, r.1.push((p.line, "lugar \""@ + p.id + "\" declarado más de una vez"@)))
        } else {
            (r.0.push(p), r.1)
        }
    }
}

/// Some arc of `s` is on the place with id `id`.
pub open spec fn has_arc_id<K>(s: Seq<(Seq<char>, K)>, id: Seq<char>) -> bool {
    exists|j: int| 0 <= j < s.len() && (#[trigger] s[j]).0 == id
}

/// The input arcs of a transition declared on line `line` that the net gets,
/// in order, and an error for each arc on an undeclared place or on a place
/// that already has an input arc.
pub open spec fn input_pass(items: Seq<(Seq<char>, ArcKind)>, places: Seq<PlaceDecl>, line: nat) -> (
    Seq<(Seq<char>, ArcKind)>,
    Seq<(nat, Seq<char>)>,
)
    decreases items.len(),
{
    if items.len() == 0 {
        (Seq::empty(), Seq::empty())
    } else {
        let r = input_pass(items.drop_last(), places, line);
        let x = items.last();
        if !has_id(places, x.0) {
            (r.0, r.1.push((line, "lugar desconocido \""@ + x.0 + "\""@)))
        } else if has_arc_id(r.0, x.0) {
            (r.0, r.1.push((line, "lugar \""@ + x.0 + "\" repetido como entrada"@)))
        } else {
            (r.0.push(x), r.1)
        }
    }
}

/// The output arcs of a transition declared on line `line` that the net
/// gets, in order, and an error for each arc on an undeclared place or on a
/// place that already has an output arc.
pub open spec fn output_pass(items: Seq<(Seq<char>, u32)>, places: Seq<PlaceDecl>, line: nat) -> (
    Seq<(Seq<char>, u32)>,
    Seq<(nat, Seq<char>)>,
)
    decreases items.len(),
{
    if items.len() == 0 {
        (Seq::empty(), Seq::empty())
    } else {
        let r = output_pass(items.drop_last(), places, line);
        let x = items.last();
        if !has_id(places, x.0) {
            (r.0, r.1.push((line, "lugar desconocido \""@ + x.0 + "\""@)))
        } else if has_arc_id(r.0, x.0) {
            (r.0, r.1.push((line, "lugar \""@ + x.0 + "\" repetido como salida"@)))
        } else {
            (r.0.push(x), r.1)
        }
    }
}

/// The errors of the arcs of all transitions, transition by transition,
/// inputs before outputs.
pub open spec fn arc_errors(ts: Seq<TransitionDecl>, places: Seq<PlaceDecl>) -> Seq<(nat, Seq<char>)>
    decreases ts.len(),
{
    if ts.len() == 0 {
        Seq::empty()
    } else {
        let t = ts.last();
        arc_errors(ts.drop_last(), places) + input_pass(t.inputs, places, t.line).1 + output_pass(t.outputs, places, t.line).1
    }
}

/// The errors of `errs` on line `n`, in order.
pub open spec fn on_line(errs: Seq<(nat, Seq<char>)>, n: nat) -> Seq<(nat, Seq<char>)>
    decreases errs.len(),
{
    if errs.len() == 0 {
        Seq::empty()
    } else if errs.last().0 == n {
        on_line(errs.drop_last(), n).push(errs.last())
    } else {
        on_line(errs.drop_last(), n)
    }
}

/// The errors of `errs` on lines one to `n`: those of line one, then those of
/// line two, and so on, each line's in their order in `errs`.
pub open spec fn by_line(errs: Seq<(nat, Seq<char>)>, n: nat) -> Seq<(nat, Seq<char>)>
    decreases n,
{
    if n == 0 {
        Seq::empty()
    } else {
        by_line(errs, (n - 1) as nat) + on_line(errs, n)
    }
}

/// Every error of a document, ordered by line: errors of single lines, then
/// repeated place ids, then arcs on unknown or repeated places, each line's
/// errors in that order.
pub open spec fn dsl_errors(src: Seq<char>) -> Seq<(nat, Seq<char>)> {
    let sc = doc_scan(src);
    let pp = place_pass(sc.places);
    by_line(sc.errors + pp.1 + arc_errors(sc.transitions, pp.0), doc_lines(src).len())
}

/// The places a document gives its net: the first declaration of each id.
pub open spec fn dsl_places(src: Seq<char>) -> Seq<PlaceDecl> {
    place_pass(doc_scan(src).places).0
}

/// The transitions a document declares.
pub open spec fn dsl_transitions(src: Seq<char>) -> Seq<TransitionDecl> {
    doc_scan(src).transitions
}

/// A node's label: the quoted label, or else its id.
pub open spec fn label_or_id(label: Option<Seq<char>>, id: Seq<char>) -> Seq<char> {
    match label {
        Some(l) => l,
        None => id,
    }
}

/// Position of the place with id `id` among `places`.
pub open spec fn id_index(places: Seq<PlaceDecl>, id: Seq<char>) -> int {
    choose|i: int| 0 <= i < places.len() && (#[trigger] places[i]).id == id
}

/// The input arcs of a declaration, on the place keys `pk` of `places`.
pub open spec fn keyed_inputs(arcs: Seq<(Seq<char>, ArcKind)>, places: Seq<PlaceDecl>, pk: Seq<u64>) -> Seq<(PlaceId, ArcKind)> {
    arcs.map_values(|x: (Seq<char>, ArcKind)| (PlaceId(pk[id_index(places, x.0)]), x.1))
}

/// The output arcs of a declaration, on the place keys `pk` of `places`.
pub open spec fn keyed_outputs(arcs: Seq<(Seq<char>, u32)>, places: Seq<PlaceDecl>, pk: Seq<u64>) -> Seq<(PlaceId, u32)> {
    arcs.map_values(|x: (Seq<char>, u32)| (PlaceId(pk[id_index(places, x.0)]), x.1))
}

/// The net `v` holds exactly the places `places` under the keys `pk` and the
/// transitions `ts` under the keys `tk`, with their labels, tokens and arcs.
pub open spec fn holds_declarations(
    v: ModelView,
    places: Seq<PlaceDecl>,
    ts: Seq<TransitionDecl>,
    pk: Seq<u64>,
    tk: Seq<u64>,
) -> bool {
    &&& pk.len() == places.len()
    &&& tk.len() == ts.len()
    &&& pk.no_duplicates()
    &&& tk.no_duplicates()
    &&& v.places.dom() == pk.to_set()
    &&& v.transitions.dom() == tk.to_set()
    &&& forall|i: int| 0 <= i < places.len() ==> (#[trigger] v.places[pk[i]]).label@ == label_or_id(places[i].label, places[i].id)
        && v.places[pk[i]].tokens == places[i].tokens
    &&& forall|j: int| 0 <= j < ts.len() ==> {
        let d = #[trigger] v.transitions[tk[j]];
        &&& d.label@ == label_or_id(ts[j].label, ts[j].id)
        &&& d.inputs@ == keyed_inputs(input_pass(ts[j].inputs, places, ts[j].line).0, places, pk)
        &&& d.outputs@ == keyed_outputs(output_pass(ts[j].outputs, places, ts[j].line).0, places, pk)
    }
}

/// The net `v` is the one the document `src` describes, up to the choice of keys.
pub open spec fn describes(v: ModelView, src: Seq<char>) -> bool {
    exists|pk: Seq<u64>, tk: Seq<u64>| holds_declarations(v, dsl_places(src), dsl_transitions(src), pk, tk)
}

/// The net of a document fits the slot maps: fewer than 2^32 - 2 places and transitions.
pub open spec fn dsl_fits(src: Seq<char>) -> bool {
    &&& dsl_places(src).len() + 2 < 0x1_0000_0000
    &&& dsl_transitions(src).len() + 2 < 0x1_0000_0000
}

/// An error of a document: the line it is on (counted from one) and what is wrong.
#[derive(Clone, Debug)]
pub struct DslError {
    pub line: usize,
    pub message: String,
}

impl DslError {
    /// The line and the message.
    pub open spec fn view(&self) -> (nat, Seq<char>) {
        (self.line as nat, self.message@)
    }
}

/// A place declaration, as read.
struct RawPlace {
    line: usize,
    label: Option<Vec<char>>,
    id: Vec<char>,
    tokens: u32,
}

impl RawPlace {
    spec fn view(&self) -> PlaceDecl {
        PlaceDecl { line: self.line as nat, label: opt_view(self.label), id: self.id@, tokens: self.tokens }
    }
}

/// A transition declaration, as read.
struct RawTransition {
    line: usize,
    parts: RawParts,
}

impl RawTransition {
    spec fn view(&self) -> TransitionDecl {
        TransitionDecl {
            line: self.line as nat,
            label: self.parts.view().0,
            id: self.parts.view().1,
            inputs: self.parts.view().2,
            outputs: self.parts.view().3,
        }
    }
}

spec fn places_view(v: Seq<RawPlace>) -> Seq<PlaceDecl> {
    v.map_values(|p: RawPlace| p.view())
}

spec fn transitions_view(v: Seq<RawTransition>) -> Seq<TransitionDecl> {
    v.map_values(|t: RawTransition| t.view())
}

/// The views of line-numbered messages.
pub open spec fn errors_view(v: Seq<(usize, Vec<char>)>) -> Seq<(nat, Seq<char>)> {
    v.map_values(|e: (usize, Vec<char>)| (e.0 as nat, e.1@))
}

/// A line without its comment and without white space at either end.
fn clean(raw: &Vec<char>) -> (l: Vec<char>)
    ensures
        l@ == clean_line(raw@),
{
    match find(raw, '#') {
        Some(i) => trimmed(&slice_of(raw, 0, i)),
        None => trimmed(raw),
    }
}

/// Reads every line of a document: the declarations and the errors of single lines.
fn scan_lines(lines: &Vec<Vec<char>>) -> (r: (Vec<RawPlace>, Vec<RawTransition>, Vec<(usize, Vec<char>)>))
    ensures
        places_view(r.0@) == scan(seqs(lines@), lines@.len()).places,
        transitions_view(r.1@) == scan(seqs(lines@), lines@.len()).transitions,
        errors_view(r.2@) == scan(seqs(lines@), lines@.len()).errors,
{
    let ghost ls = seqs(lines@);
    let places_header = chars_of("[places]");
    let transitions_header = chars_of("[transitions]");
    let mut section = Section::Preamble;
    let mut places: Vec<RawPlace> = Vec::new();
    let mut transitions: Vec<RawTransition> = Vec::new();
    let mut errors: Vec<(usize, Vec<char>)> = Vec::new();
    let mut i: usize = 0;
    assert(places_view(places@) =~= Seq::<PlaceDecl>::empty());
    assert(transitions_view(transitions@) =~= Seq::<TransitionDecl>::empty());
    assert(errors_view(errors@) =~= Seq::<(nat, Seq<char>)>::empty());
    while i < lines.len()
        invariant
            i <= lines@.len(),
            ls == seqs(lines@),
            places_header@ == "[places]"@,
            transitions_header@ == "[transitions]"@,
            section == scan(ls, i as nat).section,
            places_view(places@) == scan(ls, i as nat).places,
            transitions_view(transitions@) == scan(ls, i as nat).transitions,
            errors_view(errors@) == scan(ls, i as nat).errors,
        decreases lines@.len() - i,
    {
        let ghost st = scan(ls, i as nat);
        let no = i + 1;
        assert(ls[i as int] == lines@[i as int]@);
        let l = clean(&lines[i]);
        let ghost pv = places_view(places@);
        let ghost tv = transitions_view(transitions@);
        let ghost ev = errors_view(errors@);
        if l.len() == 0 {
        } else if same_chars(&l, &places_header) {
            section = Section::Places;
        } else if same_chars(&l, &transitions_header) {
            section = Section::Transitions;
        } else {
            match section {
                Section::Preamble => {
                    errors.push((no, chars_of("contenido antes de [places] o [transitions]")));
                    assert(errors_view(errors@) =~= ev.push((no as nat, "contenido antes de [places] o [transitions]"@)));
                },
                Section::Places => {
                    if has_char(&l, ':') {
                        errors.push((no, chars_of("forma de transición dentro de [places] (¿falta el header [transitions]?)")));
                        assert(errors_view(errors@) =~= ev.push(
                            (no as nat, "forma de transición dentro de [places] (¿falta el header [transitions]?)"@),
                        ));
                    } else {
                        match parse_place_line(&l) {
                            Ok((label, id, tokens)) => {
                                let rp = RawPlace { line: no, label, id, tokens };
                                let ghost d = rp.view();
                                places.push(rp);
                                assert(places_view(places@) =~= pv.push(d));
                            },
                            Err(m) => {
                                let ghost mv = m@;
                                errors.push((no, m));
                                assert(errors_view(errors@) =~= ev.push((no as nat, mv)));
                            },
                        }
                    }
                },
                Section::Transitions => {
                    if !has_char(&l, ':') {
                        errors.push((no, chars_of("falta ':' (forma de lugar dentro de [transitions])")));
                        assert(errors_view(errors@) =~= ev.push((no as nat, "falta ':' (forma de lugar dentro de [transitions])"@)));
                    } else {
                        match parse_transition_line(&l) {
                            Ok(parts) => {
                                let rt = RawTransition { line: no, parts };
                                let ghost d = rt.view();
                                transitions.push(rt);
                                assert(transitions_view(transitions@) =~= tv.push(d));
                            },
                            Err(m) => {
                                let ghost mv = m@;
                                errors.push((no, m));
                                assert(errors_view(errors@) =~= ev.push((no as nat, mv)));
                            },
                        }
                    }
                },
            }
        }
        i += 1;
        assert(scan(ls, i as nat) == scan_line(st, ls[i - 1], i as nat));
    }
    (places, transitions, errors)
}

/// The places kept by `place_pass` have pairwise different ids, and each
/// kept place, and each error, comes from a declaration of `ps`.
proof fn lemma_place_pass(ps: Seq<PlaceDecl>)
    ensures
        forall|a: int, b: int| 0 <= a < b < place_pass(ps).0.len() ==> (#[trigger] place_pass(ps).0[a]).id != (#[trigger] place_pass(ps).0[b]).id,
        place_pass(ps).0.len() <= ps.len(),
    decreases ps.len(),
{
    if ps.len() > 0 {
        lemma_place_pass(ps.drop_last());
        let r = place_pass(ps.drop_last());
        if !has_id(r.0, ps.last().id) {
            let n = r.0.push(ps.last());
            assert forall|a: int, b: int| 0 <= a < b < n.len() implies (#[trigger] n[a]).id != (#[trigger] n[b]).id by {
                if b == n.len() - 1 {
                    assert(r.0[a] == n[a]);
                } else {
                    assert(r.0[a] == n[a] && r.0[b] == n[b]);
                }
            };
        }
    }
}

/// What `place_pass` keeps of a prefix it keeps of the whole.
proof fn lemma_place_pass_prefix(ps: Seq<PlaceDecl>, i: int)
    requires
        0 <= i <= ps.len(),
    ensures
        place_pass(ps.take(i)).0.len() <= place_pass(ps).0.len(),
    decreases ps.len() - i,
{
    if i < ps.len() {
        lemma_place_pass_prefix(ps, i + 1);
        assert(ps.take(i + 1).drop_last() =~= ps.take(i));
    } else {
        assert(ps.take(i) =~= ps);
    }
}

/// The key of the place declared with id `id`, if one is.
fn lookup(known: &Vec<(Vec<char>, PlaceId)>, id: &Vec<char>) -> (r: Option<PlaceId>)
    ensures
        r matches Some(p) ==> exists|i: int| 0 <= i < known@.len() && (#[trigger] known@[i]).0@ == id@ && known@[i].1 == p,
        r is None ==> forall|i: int| 0 <= i < known@.len() ==> (#[trigger] known@[i]).0@ != id@,
{
    let mut i: usize = 0;
    while i < known.len()
        invariant
            i <= known@.len(),
            forall|j: int| 0 <= j < i ==> (#[trigger] known@[j]).0@ != id@,
        decreases known@.len() - i,
    {
        if same_chars(&known[i].0, id) {
            return Some(known[i].1);
        }
        i += 1;
    }
    None
}

/// The declared places, under the keys `pk`, are what `v` holds, with their labels and tokens.
spec fn holds_places(v: ModelView, places: Seq<PlaceDecl>, pk: Seq<u64>) -> bool {
    &&& pk.len() == places.len()
    &&& pk.no_duplicates()
    &&& v.places.dom() == pk.to_set()
    &&& forall|i: int| 0 <= i < places.len() ==> (#[trigger] v.places[pk[i]]).label@ == label_or_id(places[i].label, places[i].id)
        && v.places[pk[i]].tokens == places[i].tokens
}

/// `known` pairs the id of each place with its key.
spec fn knows(known: Seq<(Vec<char>, PlaceId)>, places: Seq<PlaceDecl>, pk: Seq<u64>) -> bool {
    &&& known.len() == places.len()
    &&& pk.len() == places.len()
    &&& forall|k: int| 0 <= k < known.len() ==> (#[trigger] known[k]).0@ == places[k].id && known[k].1 == PlaceId(pk[k])
}

/// Adds the first declaration of each place id to `net`; reports the later ones.
fn add_places(net: &mut PetriNet, raw: &Vec<RawPlace>) -> (r: (Vec<(Vec<char>, PlaceId)>, Vec<(usize, Vec<char>)>, Ghost<Seq<u64>>))
    requires
        old(net).wf(),
        old(net)@.places.dom().len() == 0,
        old(net)@.transitions.dom().len() == 0,
        place_pass(places_view(raw@)).0.len() + 2 < 0x1_0000_0000,
    ensures
        final(net).wf(),
        holds_places(final(net)@, place_pass(places_view(raw@)).0, r.2@),
        knows(r.0@, place_pass(places_view(raw@)).0, r.2@),
        errors_view(r.1@) == place_pass(places_view(raw@)).1,
        final(net)@.transitions.dom().len() == 0,
{
    let ghost ps = places_view(raw@);
    let mut known: Vec<(Vec<char>, PlaceId)> = Vec::new();
    let mut errors: Vec<(usize, Vec<char>)> = Vec::new();
    let ghost mut pk: Seq<u64> = Seq::empty();
    let mut i: usize = 0;
    proof {
        assert(ps.take(0) =~= Seq::<PlaceDecl>::empty());
        assert(errors_view(errors@) =~= Seq::<(nat, Seq<char>)>::empty());
        assert(net@.places.dom() =~= pk.to_set());
    }
    while i < raw.len()
        invariant
            i <= raw@.len(),
            ps == places_view(raw@),
            ps.len() == raw@.len(),
            place_pass(ps).0.len() + 2 < 0x1_0000_0000,
            net.wf(),
            net@.transitions.dom().len() == 0,
            holds_places(net@, place_pass(ps.take(i as int)).0, pk),
            knows(known@, place_pass(ps.take(i as int)).0, pk),
            errors_view(errors@) == place_pass(ps.take(i as int)).1,
        decreases raw@.len() - i,
    {
        let ghost acc = place_pass(ps.take(i as int)).0;
        let ghost ev = errors_view(errors@);
        let p = &raw[i];
        assert(ps[i as int] == p.view());
        assert(ps.take(i + 1).drop_last() =~= ps.take(i as int));
        assert(ps.take(i + 1).last() == p.view());
        proof {
            lemma_place_pass(ps.take(i as int));
        }
        match lookup(&known, &p.id) {
            Some(_) => {
                assert(has_id(acc, p.id@)) by {
                    let k = choose|k: int| 0 <= k < known@.len() && (#[trigger] known@[k]).0@ == p.id@;
                    assert(acc[k].id == p.id@);
                };
                let m = message("lugar \"", &p.id, "\" declarado más de una vez");
                errors.push((p.line, m));
                assert(errors_view(errors@) =~= ev.push((p.line as nat, "lugar \""@ + p.id@ + "\" declarado más de una vez"@)));
            },
            None => {
                assert(!has_id(acc, p.id@)) by {
                    if has_id(acc, p.id@) {
                        let k = choose|k: int| 0 <= k < acc.len() && (#[trigger] acc[k]).id == p.id@;
                        assert(known@[k].0@ == p.id@);
                    }
                };
                proof {
                    lemma_place_pass_prefix(ps, i + 1);
                    pk.unique_seq_to_set();
                }
                let label = match &p.label {
                    Some(l) => crate::text::string_of(l),
                    None => crate::text::string_of(&p.id),
                };
                let ghost before = net@;
                let key = net.add_place(label.as_str());
                let ghost mid = net@;
                net.set_tokens(key, p.tokens);
                let ghost old_pk = pk;
                proof {
                    pk = pk.push(key.0);
                    assert(!old_pk.contains(key.0));
                    assert forall|x: u64| #[trigger] pk.to_set().contains(x) <==> net@.places.dom().contains(x) by {
                        if pk.contains(x) {
                            let j = choose|j: int| 0 <= j < pk.len() && pk[j] == x;
                            if j < old_pk.len() {
                                assert(old_pk[j] == x);
                                assert(old_pk.to_set().contains(x));
                            }
                        }
                        if net@.places.dom().contains(x) && x != key.0 {
                            assert(before.places.dom().contains(x));
                            assert(old_pk.to_set().contains(x));
                            let j = choose|j: int| 0 <= j < old_pk.len() && old_pk[j] == x;
                            assert(pk[j] == x);
                        }
                        if x == key.0 {
                            assert(pk[pk.len() - 1] == x);
                        }
                    };
                    assert(net@.places.dom() =~= pk.to_set());
                    let nacc = acc.push(p.view());
                    assert forall|k: int| 0 <= k < nacc.len() implies (#[trigger] net@.places[pk[k]]).label@ == label_or_id(nacc[k].label, nacc[k].id)
                        && net@.places[pk[k]].tokens == nacc[k].tokens by {
                        if k < acc.len() {
                            assert(pk[k] == old_pk[k]);
                            assert(before.places.dom().contains(old_pk[k]));
                            assert(pk[k] != key.0);
                            assert(mid.places[pk[k]] == before.places[pk[k]]);
                            assert(net@.places.dom().contains(pk[k]));
                        } else {
                            assert(pk[k] == key.0);
                            assert(net@.places.dom().contains(key.0));
                            assert(nacc[k] == p.view());
                        }
                    };
                }
                known.push((crate::text::slice_of(&p.id, 0, p.id.len()), key));
                proof {
                    let nacc = acc.push(p.view());
                    assert forall|k: int| 0 <= k < known@.len() implies (#[trigger] known@[k]).0@ == nacc[k].id && known@[k].1 == PlaceId(pk[k]) by {
                        if k < acc.len() {
                            assert(pk[k] == old_pk[k]);
                        }
                    };
                }
            },
        }
        i += 1;
    }
    assert(ps.take(i as int) =~= ps);
    (known, errors, Ghost(pk))
}

/// The places of `places` have pairwise different ids.
pub open spec fn distinct_ids(places: Seq<PlaceDecl>) -> bool {
    forall|a: int, b: int| 0 <= a < b < places.len() ==> (#[trigger] places[a]).id != (#[trigger] places[b]).id
}

/// Among places with distinct ids, `id_index` finds the one with id `id`.
pub proof fn lemma_id_index(places: Seq<PlaceDecl>, id: Seq<char>, i: int)
    requires
        distinct_ids(places),
        0 <= i < places.len(),
        places[i].id == id,
    ensures
        id_index(places, id) == i,
{
    let k = id_index(places, id);
    assert(0 <= k < places.len() && places[k].id == id);
    if k < i {
        assert(places[k].id != places[i].id);
    }
    if i < k {
        assert(places[i].id != places[k].id);
    }
}

/// Every arc kept by `input_pass` is on a declared place, and no two are on one place.
proof fn lemma_input_pass(items: Seq<(Seq<char>, ArcKind)>, places: Seq<PlaceDecl>, line: nat)
    ensures
        forall|j: int| 0 <= j < input_pass(items, places, line).0.len() ==> has_id(places, (#[trigger] input_pass(items, places, line).0[j]).0),
    decreases items.len(),
{
    if items.len() > 0 {
        lemma_input_pass(items.drop_last(), places, line);
        let r = input_pass(items.drop_last(), places, line);
        assert forall|j: int| 0 <= j < input_pass(items, places, line).0.len() implies has_id(places, (#[trigger] input_pass(items, places, line).0[j]).0) by {
            if j < r.0.len() {
                assert(input_pass(items, places, line).0[j] == r.0[j]);
            }
        };
    }
}

/// Every arc kept by `output_pass` is on a declared place.
proof fn lemma_output_pass(items: Seq<(Seq<char>, u32)>, places: Seq<PlaceDecl>, line: nat)
    ensures
        forall|j: int| 0 <= j < output_pass(items, places, line).0.len() ==> has_id(places, (#[trigger] output_pass(items, places, line).0[j]).0),
    decreases items.len(),
{
    if items.len() > 0 {
        lemma_output_pass(items.drop_last(), places, line);
        let r = output_pass(items.drop_last(), places, line);
        assert forall|j: int| 0 <= j < output_pass(items, places, line).0.len() implies has_id(places, (#[trigger] output_pass(items, places, line).0[j]).0) by {
            if j < r.0.len() {
                assert(output_pass(items, places, line).0[j] == r.0[j]);
            }
        };
    }
}

/// On keyed arcs, a place has an arc exactly when its id has one.
proof fn lemma_keyed_has<K>(arcs: Seq<(Seq<char>, K)>, places: Seq<PlaceDecl>, pk: Seq<u64>, id: Seq<char>, keyed: Seq<(PlaceId, K)>)
    requires
        distinct_ids(places),
        pk.len() == places.len(),
        pk.no_duplicates(),
        has_id(places, id),
        forall|j: int| 0 <= j < arcs.len() ==> has_id(places, (#[trigger] arcs[j]).0),
        keyed.len() == arcs.len(),
        forall|j: int| 0 <= j < arcs.len() ==> (#[trigger] keyed[j]).0 == PlaceId(pk[id_index(places, arcs[j].0)]),
    ensures
        has_place(keyed, PlaceId(pk[id_index(places, id)])) == has_arc_id(arcs, id),
{
    let i = choose|i: int| 0 <= i < places.len() && (#[trigger] places[i]).id == id;
    lemma_id_index(places, id, i);
    if has_arc_id(arcs, id) {
        let j = choose|j: int| 0 <= j < arcs.len() && (#[trigger] arcs[j]).0 == id;
        assert(keyed[j].0 == PlaceId(pk[id_index(places, id)]));
    }
    if has_place(keyed, PlaceId(pk[id_index(places, id)])) {
        let j = choose|j: int| 0 <= j < keyed.len() && (#[trigger] keyed[j]).0 == PlaceId(pk[id_index(places, id)]);
        assert(has_id(places, arcs[j].0));
        let a = choose|a: int| 0 <= a < places.len() && (#[trigger] places[a]).id == arcs[j].0;
        lemma_id_index(places, arcs[j].0, a);
        assert(pk[a] == pk[i]);
        assert(a == i);
        assert(arcs[j].0 == id);
    }
}

/// The declared places are held under keys `pk`, and `known` pairs their ids with those keys.
spec fn keyed_places(v: ModelView, known: Seq<(Vec<char>, PlaceId)>, places: Seq<PlaceDecl>, pk: Seq<u64>) -> bool {
    &&& holds_places(v, places, pk)
    &&& knows(known, places, pk)
    &&& distinct_ids(places)
}

/// The key of the place a declared id stands for.
proof fn lemma_lookup(known: Seq<(Vec<char>, PlaceId)>, places: Seq<PlaceDecl>, pk: Seq<u64>, id: Seq<char>, k: int)
    requires
        knows(known, places, pk),
        distinct_ids(places),
        0 <= k < known.len(),
        known[k].0@ == id,
    ensures
        has_id(places, id),
        known[k].1 == PlaceId(pk[id_index(places, id)]),
{
    assert(places[k].id == id);
    lemma_id_index(places, id, k);
}

/// Adds a transition with the arcs of its declaration `t` to `net`; reports
/// arcs on undeclared places and repeated arcs.
fn add_declared_transition(
    net: &mut PetriNet,
    t: &RawTransition,
    known: &Vec<(Vec<char>, PlaceId)>,
    Ghost(places): Ghost<Seq<PlaceDecl>>,
    Ghost(pk): Ghost<Seq<u64>>,
) -> (r: (TransitionId, Vec<(usize, Vec<char>)>))
    requires
        old(net).wf(),
        keyed_places(old(net)@, known@, places, pk),
        old(net)@.transitions.dom().len() + 2 < 0x1_0000_0000,
    ensures
        final(net).wf(),
        final(net)@.places == old(net)@.places,
        !old(net)@.transitions.dom().contains(r.0.0),
        final(net)@.transitions.dom() == old(net)@.transitions.dom().insert(r.0.0),
        forall|k: u64| k != r.0.0 && old(net)@.transitions.dom().contains(k) ==> #[trigger] final(net)@.transitions[k] == old(net)@.transitions[k],
        final(net)@.transitions[r.0.0].label@ == label_or_id(t.view().label, t.view().id),
        final(net)@.transitions[r.0.0].inputs@ == keyed_inputs(input_pass(t.view().inputs, places, t.view().line).0, places, pk),
        final(net)@.transitions[r.0.0].outputs@ == keyed_outputs(output_pass(t.view().outputs, places, t.view().line).0, places, pk),
        errors_view(r.1@) == input_pass(t.view().inputs, places, t.view().line).1 + output_pass(t.view().outputs, places, t.view().line).1,
{
    let ghost td = t.view();
    let label = match &t.parts.label {
        Some(l) => crate::text::string_of(l),
        None => crate::text::string_of(&t.parts.id),
    };
    let ghost before = net@;
    let tid = net.add_transition(label.as_str());
    let mut errors: Vec<(usize, Vec<char>)> = Vec::new();
    let ins = &t.parts.inputs;
    let ghost iv = inputs_view(ins@);
    assert(iv == td.inputs);
    let mut k: usize = 0;
    proof {
        assert(iv.take(0) =~= Seq::<(Seq<char>, ArcKind)>::empty());
        assert(errors_view(errors@) =~= Seq::<(nat, Seq<char>)>::empty());
        assert(keyed_inputs(Seq::empty(), places, pk) =~= Seq::<(PlaceId, ArcKind)>::empty());
    }
    while k < ins.len()
        invariant
            k <= ins@.len(),
            iv == inputs_view(ins@),
            iv.len() == ins@.len(),
            td == t.view(),
            net.wf(),
            keyed_places(net@, known@, places, pk),
            net@.places == before.places,
            net@.transitions.dom() == before.transitions.dom().insert(tid.0),
            forall|q: u64| q != tid.0 && before.transitions.dom().contains(q) ==> #[trigger] net@.transitions[q] == before.transitions[q],
            net@.transitions[tid.0].label@ == label_or_id(td.label, td.id),
            net@.transitions[tid.0].inputs@ == keyed_inputs(input_pass(iv.take(k as int), places, td.line).0, places, pk),
            net@.transitions[tid.0].outputs@.len() == 0,
            errors_view(errors@) == input_pass(iv.take(k as int), places, td.line).1,
        decreases ins@.len() - k,
    {
        let ghost r = input_pass(iv.take(k as int), places, td.line);
        let ghost ev = errors_view(errors@);
        let ghost cur = net@;
        let id = &ins[k].0;
        let kind = ins[k].1;
        assert(iv[k as int] == (id@, kind));
        assert(iv.take(k + 1).drop_last() =~= iv.take(k as int));
        assert(iv.take(k + 1).last() == (id@, kind));
        proof {
            lemma_input_pass(iv.take(k as int), places, td.line);
        }
        match lookup(known, id) {
            None => {
                assert(!has_id(places, id@)) by {
                    if has_id(places, id@) {
                        let a = choose|a: int| 0 <= a < places.len() && (#[trigger] places[a]).id == id@;
                        assert(known@[a].0@ == id@);
                    }
                };
                errors.push((t.line, message("lugar desconocido \"", id, "\"")));
                assert(errors_view(errors@) =~= ev.push((td.line, "lugar desconocido \""@ + id@ + "\""@)));
            },
            Some(p) => {
                proof {
                    let a = choose|a: int| 0 <= a < known@.len() && (#[trigger] known@[a]).0@ == id@ && known@[a].1 == p;
                    lemma_lookup(known@, places, pk, id@, a);
                    let keyed = cur.transitions[tid.0].inputs@;
                    assert forall|j: int| 0 <= j < r.0.len() implies (#[trigger] keyed[j]).0 == PlaceId(pk[id_index(places, r.0[j].0)]) by {
                        assert(keyed[j] == (PlaceId(pk[id_index(places, r.0[j].0)]), r.0[j].1));
                    };
                    lemma_keyed_has(r.0, places, pk, id@, keyed);
                }
                if net.add_arc_place_to_transition(p, tid, kind).is_err() {
                    errors.push((t.line, message("lugar \"", id, "\" repetido como entrada")));
                    assert(errors_view(errors@) =~= ev.push((td.line, "lugar \""@ + id@ + "\" repetido como entrada"@)));
                } else {
                    assert(keyed_inputs(r.0.push((id@, kind)), places, pk) =~= keyed_inputs(r.0, places, pk).push((p, kind)));
                }
                assert forall|q: u64| q != tid.0 && before.transitions.dom().contains(q) implies #[trigger] net@.transitions[q]
                    == before.transitions[q] by {
                    assert(net@.transitions.dom().contains(q));
                    assert(cur.transitions[q] == before.transitions[q]);
                };
            },
        }
        k += 1;
    }
    assert(iv.take(k as int) =~= iv);
    let outs = &t.parts.outputs;
    let ghost ov = outputs_view(outs@);
    assert(ov == td.outputs);
    let ghost in_errors = errors_view(errors@);
    let mut k: usize = 0;
    proof {
        assert(ov.take(0) =~= Seq::<(Seq<char>, u32)>::empty());
        assert(in_errors + output_pass(ov.take(0), places, td.line).1 =~= in_errors);
        assert(keyed_outputs(Seq::empty(), places, pk) =~= net@.transitions[tid.0].outputs@);
    }
    while k < outs.len()
        invariant
            k <= outs@.len(),
            ov == outputs_view(outs@),
            ov.len() == outs@.len(),
            td == t.view(),
            net.wf(),
            keyed_places(net@, known@, places, pk),
            net@.places == before.places,
            net@.transitions.dom() == before.transitions.dom().insert(tid.0),
            forall|q: u64| q != tid.0 && before.transitions.dom().contains(q) ==> #[trigger] net@.transitions[q] == before.transitions[q],
            net@.transitions[tid.0].label@ == label_or_id(td.label, td.id),
            net@.transitions[tid.0].inputs@ == keyed_inputs(input_pass(iv, places, td.line).0, places, pk),
            net@.transitions[tid.0].outputs@ == keyed_outputs(output_pass(ov.take(k as int), places, td.line).0, places, pk),
            errors_view(errors@) == in_errors + output_pass(ov.take(k as int), places, td.line).1,
        decreases outs@.len() - k,
    {
        let ghost r = output_pass(ov.take(k as int), places, td.line);
        let ghost ev = errors_view(errors@);
        let ghost cur = net@;
        let id = &outs[k].0;
        let w = outs[k].1;
        assert(ov[k as int] == (id@, w));
        assert(ov.take(k + 1).drop_last() =~= ov.take(k as int));
        assert(ov.take(k + 1).last() == (id@, w));
        proof {
            lemma_output_pass(ov.take(k as int), places, td.line);
        }
        match lookup(known, id) {
            None => {
                assert(!has_id(places, id@)) by {
                    if has_id(places, id@) {
                        let a = choose|a: int| 0 <= a < places.len() && (#[trigger] places[a]).id == id@;
                        assert(known@[a].0@ == id@);
                    }
                };
                errors.push((t.line, message("lugar desconocido \"", id, "\"")));
                assert(errors_view(errors@) =~= ev.push((td.line, "lugar desconocido \""@ + id@ + "\""@)));
                assert(in_errors + r.1.push((td.line, "lugar desconocido \""@ + id@ + "\""@)) =~= (in_errors + r.1).push(
                    (td.line, "lugar desconocido \""@ + id@ + "\""@),
                ));
            },
            Some(p) => {
                proof {
                    let a = choose|a: int| 0 <= a < known@.len() && (#[trigger] known@[a]).0@ == id@ && known@[a].1 == p;
                    lemma_lookup(known@, places, pk, id@, a);
                    let keyed = cur.transitions[tid.0].outputs@;
                    assert forall|j: int| 0 <= j < r.0.len() implies (#[trigger] keyed[j]).0 == PlaceId(pk[id_index(places, r.0[j].0)]) by {
                        assert(keyed[j] == (PlaceId(pk[id_index(places, r.0[j].0)]), r.0[j].1));
                    };
                    lemma_keyed_has(r.0, places, pk, id@, keyed);
                }
                if net.add_arc_transition_to_place(tid, p, w).is_err() {
                    errors.push((t.line, message("lugar \"", id, "\" repetido como salida")));
                    assert(errors_view(errors@) =~= ev.push((td.line, "lugar \""@ + id@ + "\" repetido como salida"@)));
                    assert(in_errors + r.1.push((td.line, "lugar \""@ + id@ + "\" repetido como salida"@)) =~= (in_errors + r.1).push(
                        (td.line, "lugar \""@ + id@ + "\" repetido como salida"@),
                    ));
                } else {
                    assert(keyed_outputs(r.0.push((id@, w)), places, pk) =~= keyed_outputs(r.0, places, pk).push((p, w)));
                }
                assert forall|q: u64| q != tid.0 && before.transitions.dom().contains(q) implies #[trigger] net@.transitions[q]
                    == before.transitions[q] by {
                    assert(net@.transitions.dom().contains(q));
                    assert(cur.transitions[q] == before.transitions[q]);
                };
            },
        }
        k += 1;
    }
    assert(ov.take(k as int) =~= ov);
    (tid, errors)
}

/// The declared transitions, under the keys `tk`, are what `v` holds, with
/// their labels and their arcs on the places under the keys `pk`.
spec fn holds_transitions(v: ModelView, places: Seq<PlaceDecl>, ts: Seq<TransitionDecl>, pk: Seq<u64>, tk: Seq<u64>) -> bool {
    &&& tk.len() == ts.len()
    &&& tk.no_duplicates()
    &&& v.transitions.dom() == tk.to_set()
    &&& forall|j: int| 0 <= j < ts.len() ==> {
        let d = #[trigger] v.transitions[tk[j]];
        &&& d.label@ == label_or_id(ts[j].label, ts[j].id)
        &&& d.inputs@ == keyed_inputs(input_pass(ts[j].inputs, places, ts[j].line).0, places, pk)
        &&& d.outputs@ == keyed_outputs(output_pass(ts[j].outputs, places, ts[j].line).0, places, pk)
    }
}

/// A copy of a line-numbered message.
fn copy_error(e: &(usize, Vec<char>)) -> (r: (usize, Vec<char>))
    ensures
        r.0 == e.0,
        r.1@ == e.1@,
{
    (e.0, slice_of(&e.1, 0, e.1.len()))
}

/// Appends the messages of `src` to `dst`.
fn append_errors(dst: &mut Vec<(usize, Vec<char>)>, src: &Vec<(usize, Vec<char>)>)
    ensures
        errors_view(final(dst)@) == errors_view(old(dst)@) + errors_view(src@),
{
    let ghost start = errors_view(dst@);
    let mut i: usize = 0;
    while i < src.len()
        invariant
            i <= src@.len(),
            errors_view(dst@) == start + errors_view(src@).take(i as int),
        decreases src@.len() - i,
    {
        let ghost before = errors_view(dst@);
        let e = copy_error(&src[i]);
        dst.push(e);
        assert(errors_view(dst@) =~= before.push(errors_view(src@)[i as int]));
        i += 1;
        assert(errors_view(src@).take(i as int) =~= errors_view(src@).take(i - 1).push(errors_view(src@)[i - 1]));
    }
    assert(errors_view(src@).take(i as int) =~= errors_view(src@));
}

/// Adds every declared transition, with its arcs, to `net`; reports arcs on
/// undeclared places and repeated arcs.
fn add_transitions(
    net: &mut PetriNet,
    raw: &Vec<RawTransition>,
    known: &Vec<(Vec<char>, PlaceId)>,
    Ghost(places): Ghost<Seq<PlaceDecl>>,
    Ghost(pk): Ghost<Seq<u64>>,
) -> (r: (Vec<(usize, Vec<char>)>, Ghost<Seq<u64>>))
    requires
        old(net).wf(),
        keyed_places(old(net)@, known@, places, pk),
        old(net)@.transitions.dom().len() == 0,
        transitions_view(raw@).len() + 2 < 0x1_0000_0000,
    ensures
        final(net).wf(),
        final(net)@.places == old(net)@.places,
        holds_transitions(final(net)@, places, transitions_view(raw@), pk, r.1@),
        errors_view(r.0@) == arc_errors(transitions_view(raw@), places),
{
    let ghost ts = transitions_view(raw@);
    let ghost start = net@;
    let mut errors: Vec<(usize, Vec<char>)> = Vec::new();
    let ghost mut tk: Seq<u64> = Seq::empty();
    let mut j: usize = 0;
    proof {
        assert(ts.take(0) =~= Seq::<TransitionDecl>::empty());
        assert(errors_view(errors@) =~= Seq::<(nat, Seq<char>)>::empty());
        assert(net@.transitions.dom() =~= tk.to_set());
    }
    while j < raw.len()
        invariant
            j <= raw@.len(),
            ts == transitions_view(raw@),
            ts.len() == raw@.len(),
            ts.len() + 2 < 0x1_0000_0000,
            net.wf(),
            net@.places == start.places,
            keyed_places(net@, known@, places, pk),
            holds_transitions(net@, places, ts.take(j as int), pk, tk),
            errors_view(errors@) == arc_errors(ts.take(j as int), places),
        decreases raw@.len() - j,
    {
        let ghost before = net@;
        let ghost old_tk = tk;
        let ghost ev = errors_view(errors@);
        let t = &raw[j];
        assert(ts[j as int] == t.view());
        proof {
            tk.unique_seq_to_set();
        }
        let (tid, more) = add_declared_transition(net, t, known, Ghost(places), Ghost(pk));
        append_errors(&mut errors, &more);
        proof {
            let td = t.view();
            tk = tk.push(tid.0);
            assert(!old_tk.contains(tid.0));
            assert(ts.take(j + 1).drop_last() =~= ts.take(j as int));
            assert(ts.take(j + 1).last() == td);
            assert(errors_view(errors@) =~= ev + input_pass(td.inputs, places, td.line).1 + output_pass(td.outputs, places, td.line).1);
            assert forall|x: u64| #[trigger] tk.to_set().contains(x) <==> net@.transitions.dom().contains(x) by {
                if tk.contains(x) {
                    let a = choose|a: int| 0 <= a < tk.len() && tk[a] == x;
                    if a < old_tk.len() {
                        assert(old_tk[a] == x);
                        assert(old_tk.to_set().contains(x));
                    }
                }
                if net@.transitions.dom().contains(x) && x != tid.0 {
                    assert(old_tk.to_set().contains(x));
                    let a = choose|a: int| 0 <= a < old_tk.len() && old_tk[a] == x;
                    assert(tk[a] == x);
                }
                if x == tid.0 {
                    assert(tk[tk.len() - 1] == x);
                }
            };
            assert(net@.transitions.dom() =~= tk.to_set());
            let nts = ts.take(j + 1);
            assert forall|b: int| 0 <= b < nts.len() implies {
                let d = #[trigger] net@.transitions[tk[b]];
                &&& d.label@ == label_or_id(nts[b].label, nts[b].id)
                &&& d.inputs@ == keyed_inputs(input_pass(nts[b].inputs, places, nts[b].line).0, places, pk)
                &&& d.outputs@ == keyed_outputs(output_pass(nts[b].outputs, places, nts[b].line).0, places, pk)
            } by {
                if b < j {
                    assert(tk[b] == old_tk[b]);
                    assert(nts[b] == ts.take(j as int)[b]);
                    assert(old_tk.to_set().contains(old_tk[b]));
                    assert(tk[b] != tid.0);
                    assert(net@.transitions[tk[b]] == before.transitions[tk[b]]);
                } else {
                    assert(tk[b] == tid.0);
                    assert(nts[b] == td);
                }
            };
        }
        j += 1;
    }
    assert(ts.take(j as int) =~= ts);
    (errors, Ghost(tk))
}

/// The errors of `errs` ordered by line, for lines one to `n`.
fn order_by_line(errs: &Vec<(usize, Vec<char>)>, n: usize) -> (r: Vec<(usize, Vec<char>)>)
    ensures
        errors_view(r@) == by_line(errors_view(errs@), n as nat),
{
    let ghost ev = errors_view(errs@);
    let mut out: Vec<(usize, Vec<char>)> = Vec::new();
    let mut m: usize = 0;
    assert(errors_view(out@) =~= by_line(ev, 0));
    while m < n
        invariant
            m <= n,
            ev == errors_view(errs@),
            errors_view(out@) == by_line(ev, m as nat),
        decreases n - m,
    {
        let line = m + 1;
        let ghost prefix = errors_view(out@);
        let mut k: usize = 0;
        assert(prefix + on_line(ev.take(0), line as nat) =~= prefix);
        while k < errs.len()
            invariant
                k <= errs@.len(),
                ev == errors_view(errs@),
                ev.len() == errs@.len(),
                line == m + 1,
                errors_view(out@) == prefix + on_line(ev.take(k as int), line as nat),
            decreases errs@.len() - k,
        {
            let ghost before = errors_view(out@);
            assert(ev.take(k + 1).drop_last() =~= ev.take(k as int));
            assert(ev.take(k + 1).last() == ev[k as int]);
            if errs[k].0 == line {
                let e = copy_error(&errs[k]);
                out.push(e);
                assert(errors_view(out@) =~= before.push(ev[k as int]));
            }
            k += 1;
        }
        assert(ev.take(k as int) =~= ev);
        m += 1;
    }
    out
}

/// The errors as the caller sees them.
fn to_dsl_errors(errs: &Vec<(usize, Vec<char>)>) -> (r: Vec<DslError>)
    ensures
        r@.map_values(|e: DslError| e.view()) == errors_view(errs@),
{
    let mut out: Vec<DslError> = Vec::new();
    let mut i: usize = 0;
    while i < errs.len()
        invariant
            i <= errs@.len(),
            out@.map_values(|e: DslError| e.view()) == errors_view(errs@).take(i as int),
        decreases errs@.len() - i,
    {
        let ghost before = out@.map_values(|e: DslError| e.view());
        let e = DslError { line: errs[i].0, message: crate::text::string_of(&errs[i].1) };
        out.push(e);
        assert(out@.map_values(|e: DslError| e.view()) =~= before.push(errors_view(errs@)[i as int]));
        i += 1;
        assert(errors_view(errs@).take(i as int) =~= errors_view(errs@).take(i - 1).push(errors_view(errs@)[i - 1]));
    }
    assert(errors_view(errs@).take(i as int) =~= errors_view(errs@));
    out
}

/// Reads a document into a fresh editable net. Every error of the document is
/// reported, ordered by line, and then no net is returned; otherwise the net
/// holds exactly the declared places (with their labels and tokens) and
/// transitions (with their labels and arcs).
pub fn parse(source: &str) -> (r: Result<PetriNet, Vec<DslError>>)
    requires
        dsl_fits(source@),
    ensures
        match r {
            Ok(net) => dsl_errors(source@).len() == 0 && net.wf() && describes(net@, source@),
            Err(errors) => dsl_errors(source@).len() > 0 && errors@.map_values(|e: DslError| e.view()) == dsl_errors(source@),
        },
{
    let chars = chars_of(source);
    let lines = split_pieces(&chars, '\n');
    assert(seqs(lines@) == doc_lines(source@));
    let (raw_places, raw_transitions, line_errors) = scan_lines(&lines);
    let ghost sc = doc_scan(source@);
    let ghost pp = place_pass(sc.places);
    let mut net = PetriNet::new();
    let (known, place_errors, Ghost(pk)) = add_places(&mut net, &raw_places);
    proof {
        lemma_place_pass(sc.places);
    }
    let (arc_errs, Ghost(tk)) = add_transitions(&mut net, &raw_transitions, &known, Ghost(pp.0), Ghost(pk));
    let mut all = line_errors;
    append_errors(&mut all, &place_errors);
    append_errors(&mut all, &arc_errs);
    let sorted = order_by_line(&all, lines.len());
    if sorted.len() == 0 {
        proof {
            assert(holds_declarations(net@, dsl_places(source@), dsl_transitions(source@), pk, tk));
        }
        Ok(net)
    } else {
        Err(to_dsl_errors(&sorted))
    }
}

/// `s` can be written between `<` and `>` as it is: not empty, no `>`.
pub open spec fn valid_id(s: Seq<char>) -> bool {
    s.len() > 0 && !s.contains('>')
}

/// `label` has the shape of a generated id: `prefix` followed by digits.
pub open spec fn generated_form(label: Seq<char>, prefix: char) -> bool {
    &&& label.len() >= 2
    &&& label[0] == prefix
    &&& forall|i: int| 1 <= i < label.len() ==> crate::text::is_digit(#[trigger] label[i])
}

/// `label` may be written as the id of a node of its kind (places `p`,
/// transitions `t`): it reads back as it is, a place's may stand in arc
/// lists, and it cannot be taken for a generated id.
pub open spec fn usable_as_id(label: Seq<char>, prefix: char) -> bool {
    &&& crate::roundtrip::plain_label(label)
    &&& prefix == 'p' ==> crate::roundtrip::plain_place_label(label)
    &&& !generated_form(label, prefix)
}

/// The `i`-th of `labels` is written as its own id: it may be, and no other
/// node of its kind bears it.
pub open spec fn own_id(labels: Seq<Seq<char>>, i: int, prefix: char) -> bool {
    &&& usable_as_id(labels[i], prefix)
    &&& forall|j: int| 0 <= j < labels.len() && j != i ==> #[trigger] labels[j] != labels[i]
}

/// The id written for the `i`-th node of its kind, labelled `label`: the
/// label itself where it is written as its own id, else `prefix` and the
/// position.
pub open spec fn written_id(label: Seq<char>, own: bool, prefix: char, i: nat) -> Seq<char> {
    if own {
        label
    } else {
        seq![prefix] + decimal(i)
    }
}

/// The labels of the places of `v`, in slot order.
pub open spec fn place_labels(v: ModelView) -> Seq<Seq<char>> {
    place_order(v).map_values(|k: u64| v.places[k].label@)
}

/// The labels of the transitions of `v`, in slot order.
pub open spec fn transition_labels(v: ModelView) -> Seq<Seq<char>> {
    transition_order(v).map_values(|k: u64| v.transitions[k].label@)
}

/// The id written for the `i`-th place of `v`.
pub open spec fn place_id_of(v: ModelView, i: int) -> Seq<char> {
    written_id(v.places[place_order(v)[i]].label@, own_id(place_labels(v), i, 'p'), 'p', i as nat)
}

/// The id written for the `j`-th transition of `v`.
pub open spec fn transition_id_of(v: ModelView, j: int) -> Seq<char> {
    written_id(v.transitions[transition_order(v)[j]].label@, own_id(transition_labels(v), j, 't'), 't', j as nat)
}

/// A declaration head: `<id>`, preceded by the quoted label where the id is not the label.
pub open spec fn head_text(label: Seq<char>, id: Seq<char>) -> Seq<char> {
    (if id == label {
        Seq::empty()
    } else {
        "\""@ + label + "\" "@
    }) + "<"@ + id + ">"@
}

/// The label written beside the id `id` of a node labelled `label`: the label
/// itself where it is the id or can be written in quotes, else none, and the
/// node reads back labelled with its id.
pub open spec fn shown_label(label: Seq<char>, id: Seq<char>) -> Seq<char> {
    if id == label || crate::roundtrip::quotable(label) {
        label
    } else {
        id
    }
}

/// The label written for the `i`-th place of `v`.
pub open spec fn place_label_shown(v: ModelView, i: int) -> Seq<char> {
    shown_label(v.places[place_order(v)[i]].label@, place_id_of(v, i))
}

/// The label written for the `j`-th transition of `v`.
pub open spec fn transition_label_shown(v: ModelView, j: int) -> Seq<char> {
    shown_label(v.transitions[transition_order(v)[j]].label@, transition_id_of(v, j))
}

/// The id written for the place under key `k` of `v`.
pub open spec fn place_written_id(v: ModelView, k: u64) -> Seq<char> {
    place_id_of(v, position(place_order(v), k))
}

/// The line written for the `i`-th place of `v`, in slot order.
pub open spec fn place_text(v: ModelView, i: int) -> Seq<char> {
    let k = place_order(v)[i];
    let d = v.places[k];
    head_text(place_label_shown(v, i), place_id_of(v, i)) + (if d.tokens == 0 {
        Seq::empty()
    } else {
        " tokens="@ + decimal(d.tokens as nat)
    }) + "\n"@
}

/// `n` written after a modifier, or nothing for one.
pub open spec fn weight_text(w: u32) -> Seq<char> {
    if w == 1 {
        Seq::empty()
    } else {
        decimal(w as nat)
    }
}

/// An input arc as written: `@id`, `@id*N`, `@id~[N]`, `@id![N]`.
pub open spec fn input_text(id: Seq<char>, kind: ArcKind) -> Seq<char> {
    "@"@ + id + match kind {
        ArcKind::Consume(w) => if w == 1 {
            Seq::empty()
        } else {
            "*"@ + decimal(w as nat)
        },
        ArcKind::Peek(w) => "~"@ + weight_text(w),
        ArcKind::Inhibit(w) => "!"@ + weight_text(w),
    }
}

/// An output arc as written: `@id` or `@id*N`.
pub open spec fn output_text(id: Seq<char>, w: u32) -> Seq<char> {
    "@"@ + id + if w == 1 {
        Seq::empty()
    } else {
        "*"@ + decimal(w as nat)
    }
}

/// `items` separated by `, `.
pub open spec fn joined(items: Seq<Seq<char>>) -> Seq<char>
    decreases items.len(),
{
    if items.len() == 0 {
        Seq::empty()
    } else if items.len() == 1 {
        items[0]
    } else {
        joined(items.drop_last()) + ", "@ + items.last()
    }
}

/// The input arcs of transition `t` of `v`, as written.
pub open spec fn inputs_text(v: ModelView, t: u64) -> Seq<Seq<char>> {
    v.transitions[t].inputs@.map_values(|a: (PlaceId, ArcKind)| input_text(place_written_id(v, a.0.0), a.1))
}

/// The output arcs of transition `t` of `v`, as written.
pub open spec fn outputs_text(v: ModelView, t: u64) -> Seq<Seq<char>> {
    v.transitions[t].outputs@.map_values(|a: (PlaceId, u32)| output_text(place_written_id(v, a.0.0), a.1))
}

/// The line written for the `j`-th transition of `v`, in slot order.
pub open spec fn transition_text(v: ModelView, j: int) -> Seq<char> {
    let t = transition_order(v)[j];
    let label = v.transitions[t].label@;
    head_text(transition_label_shown(v, j), transition_id_of(v, j)) + ": "@ + joined(inputs_text(v, t)) + " -> "@ + joined(outputs_text(v, t))
        + "\n"@
}

/// The lines of the first `n` places.
pub open spec fn places_text(v: ModelView, n: nat) -> Seq<char>
    decreases n,
{
    if n == 0 {
        Seq::empty()
    } else {
        places_text(v, (n - 1) as nat) + place_text(v, n - 1)
    }
}

/// The lines of the first `n` transitions.
pub open spec fn transitions_text(v: ModelView, n: nat) -> Seq<char>
    decreases n,
{
    if n == 0 {
        Seq::empty()
    } else {
        transitions_text(v, (n - 1) as nat) + transition_text(v, n - 1)
    }
}

/// The document written for the net `v`.
pub open spec fn dsl_text(v: ModelView) -> Seq<char> {
    "[places]\n"@ + places_text(v, place_order(v).len()) + "\n[transitions]\n"@ + transitions_text(v, transition_order(v).len())
}

/// Appends `piece` to `out`.
fn push_all(out: &mut Vec<char>, piece: &Vec<char>)
    ensures
        final(out)@ == old(out)@ + piece@,
{
    let ghost start = out@;
    let mut i: usize = 0;
    while i < piece.len()
        invariant
            i <= piece@.len(),
            out@ == start + piece@.take(i as int),
        decreases piece@.len() - i,
    {
        out.push(piece[i]);
        i += 1;
        assert(out@ =~= start + piece@.take(i as int));
    }
    assert(piece@.take(i as int) =~= piece@);
}

/// Appends the characters of `s` to `out`.
fn push_str(out: &mut Vec<char>, s: &str)
    ensures
        final(out)@ == old(out)@ + s@,
{
    let v = chars_of(s);
    push_all(out, &v);
}

/// Whether `s` is a valid id.
fn is_valid_id(s: &Vec<char>) -> (b: bool)
    ensures
        b == valid_id(s@),
{
    s.len() > 0 && !has_char(s, '>')
}

/// The id written for the `i`-th node of its kind: its label where `own`.
fn write_id(label: &Vec<char>, own: bool, prefix: char, i: usize) -> (r: Vec<char>)
    ensures
        r@ == written_id(label@, own, prefix, i as nat),
{
    if own {
        slice_of(label, 0, label.len())
    } else {
        let mut r: Vec<char> = Vec::new();
        r.push(prefix);
        let d = crate::text::decimal_chars(i as u64);
        push_all(&mut r, &d);
        assert(r@ =~= seq![prefix] + decimal(i as nat));
        r
    }
}

/// Whether `c` may stand in an id, in a place's id where `place`.
fn id_char_check(c: char, place: bool) -> (b: bool)
    ensures
        b == (if place { crate::roundtrip::place_id_char(c) } else { crate::roundtrip::id_char(c) }),
{
    let base = c != '>' && c != '#' && c != ':' && c != '\n';
    if place {
        base && c != ',' && c != '*' && c != '~' && c != '!'
    } else {
        base
    }
}

/// Whether `label` may be written as the id of a node of its kind.
fn usable_check(label: &Vec<char>, prefix: char) -> (b: bool)
    requires
        prefix == 'p' || prefix == 't',
    ensures
        b == usable_as_id(label@, prefix),
{
    let n = label.len();
    if n == 0 {
        return false;
    }
    if crate::text::is_whitespace(label[0]) || crate::text::is_whitespace(label[n - 1]) {
        return false;
    }
    let place = prefix == 'p';
    let mut ok = true;
    let mut i: usize = 0;
    while i < n
        invariant
            i <= n,
            n == label@.len(),
            ok == forall|k: int| 0 <= k < i ==> (if place {
                crate::roundtrip::place_id_char(#[trigger] label@[k])
            } else {
                crate::roundtrip::id_char(label@[k])
            }),
        decreases n - i,
    {
        if !id_char_check(label[i], place) {
            ok = false;
        }
        i += 1;
    }
    if !ok {
        proof {
            let k = choose|k: int| 0 <= k < n && !(if place {
                crate::roundtrip::place_id_char(#[trigger] label@[k])
            } else {
                crate::roundtrip::id_char(label@[k])
            });
            if place {
                assert(!crate::roundtrip::plain_place_label(label@));
            } else {
                assert(!crate::roundtrip::plain_label(label@));
            }
        }
        return false;
    }
    let mut digits = n >= 2 && label[0] == prefix;
    let mut j: usize = 1;
    while j < n
        invariant
            1 <= j <= n,
            n == label@.len(),
            digits == (n >= 2 && label@[0] == prefix && forall|k: int| 1 <= k < j ==> crate::text::is_digit(#[trigger] label@[k])),
        decreases n - j,
    {
        let u = label[j] as u32;
        if !(48 <= u && u <= 57) {
            digits = false;
        }
        j += 1;
    }
    proof {
        assert(label@.last() == label@[n - 1]);
    }
    !digits
}

/// The label to write beside the id `id` for a node labelled `label`.
fn show_label(label: &Vec<char>, id: &Vec<char>) -> (r: Vec<char>)
    ensures
        r@ == shown_label(label@, id@),
{
    let mut quotable = true;
    let mut i: usize = 0;
    while i < label.len()
        invariant
            i <= label@.len(),
            quotable == forall|k: int| 0 <= k < i ==> #[trigger] label@[k] != '"' && label@[k] != '#' && label@[k] != ':' && label@[k] != '\n',
        decreases label@.len() - i,
    {
        let c = label[i];
        if c == '"' || c == '#' || c == ':' || c == '\n' {
            quotable = false;
        }
        i += 1;
    }
    if same_chars(id, label) || quotable {
        slice_of(label, 0, label.len())
    } else {
        slice_of(id, 0, id.len())
    }
}

/// Whether the `i`-th of `labels` is written as its own id.
fn own_check(labels: &Vec<Vec<char>>, i: usize, prefix: char) -> (b: bool)
    requires
        i < labels@.len(),
        prefix == 'p' || prefix == 't',
    ensures
        b == own_id(seqs(labels@), i as int, prefix),
{
    let ghost ls = seqs(labels@);
    assert(ls[i as int] == labels@[i as int]@);
    if !usable_check(&labels[i], prefix) {
        return false;
    }
    let mut j: usize = 0;
    while j < labels.len()
        invariant
            j <= labels@.len(),
            i < labels@.len(),
            ls == seqs(labels@),
            forall|k: int| 0 <= k < j && k != i ==> #[trigger] ls[k] != ls[i as int],
        decreases labels@.len() - j,
    {
        if j != i && same_chars(&labels[j], &labels[i]) {
            proof {
                assert(ls[j as int] == labels@[j as int]@);
                assert(ls[i as int] == labels@[i as int]@);
            }
            return false;
        }
        proof {
            assert(ls[j as int] == labels@[j as int]@);
            assert(ls[i as int] == labels@[i as int]@);
        }
        j += 1;
    }
    true
}

/// Appends a declaration head.
fn push_head(out: &mut Vec<char>, label: &Vec<char>, id: &Vec<char>)
    ensures
        final(out)@ == old(out)@ + head_text(label@, id@),
{
    let ghost start = out@;
    if !same_chars(id, label) {
        push_str(out, "\"");
        push_all(out, label);
        push_str(out, "\" ");
    }
    push_str(out, "<");
    push_all(out, id);
    push_str(out, ">");
    assert(out@ =~= start + head_text(label@, id@));
}

/// Position of `k` among `keys`.
fn index_of(keys: &Vec<PlaceId>, k: PlaceId) -> (r: usize)
    requires
        keys@.contains(k),
    ensures
        r < keys@.len(),
        keys@[r as int] == k,
{
    let mut i: usize = 0;
    while i < keys.len()
        invariant
            i <= keys@.len(),
            keys@.contains(k),
            forall|j: int| 0 <= j < i ==> keys@[j] != k,
        decreases keys@.len() - i,
    {
        if keys[i] == k {
            return i;
        }
        i += 1;
    }
    proof {
        let j = choose|j: int| 0 <= j < keys@.len() && keys@[j] == k;
        assert(keys@[j] != k);
    }
    0
}

/// Appends `items` separated by `, `.
fn push_joined(out: &mut Vec<char>, items: &Vec<Vec<char>>)
    ensures
        final(out)@ == old(out)@ + joined(seqs(items@)),
{
    let ghost start = out@;
    let ghost iv = seqs(items@);
    let mut k: usize = 0;
    assert(joined(iv.take(0)) =~= Seq::<char>::empty());
    assert(out@ =~= start + joined(iv.take(0)));
    while k < items.len()
        invariant
            k <= items@.len(),
            iv == seqs(items@),
            iv.len() == items@.len(),
            out@ == start + joined(iv.take(k as int)),
        decreases items@.len() - k,
    {
        let ghost before = out@;
        assert(iv[k as int] == items@[k as int]@);
        assert(iv.take(k + 1).drop_last() =~= iv.take(k as int));
        assert(iv.take(k + 1).last() == iv[k as int]);
        if k > 0 {
            push_str(out, ", ");
        }
        push_all(out, &items[k]);
        k += 1;
        if k == 1 {
            assert(joined(iv.take(1)) == iv.take(1)[0]);
            assert(out@ =~= start + joined(iv.take(k as int)));
        } else {
            assert(out@ =~= start + joined(iv.take(k as int)));
        }
    }
    assert(iv.take(k as int) =~= iv);
}

/// Appends `n` written after a modifier (nothing for one).
fn push_weight(out: &mut Vec<char>, w: u32)
    ensures
        final(out)@ == old(out)@ + weight_text(w),
{
    if w != 1 {
        let d = crate::text::decimal_chars(w as u64);
        push_all(out, &d);
    } else {
        assert(old(out)@ + weight_text(w) =~= old(out)@);
    }
}

/// An input arc as written.
fn write_input(id: &Vec<char>, kind: ArcKind) -> (r: Vec<char>)
    ensures
        r@ == input_text(id@, kind),
{
    let mut r: Vec<char> = Vec::new();
    push_str(&mut r, "@");
    push_all(&mut r, id);
    let ghost head = r@;
    match kind {
        ArcKind::Consume(w) => {
            if w != 1 {
                push_str(&mut r, "*");
                let d = crate::text::decimal_chars(w as u64);
                push_all(&mut r, &d);
            }
        },
        ArcKind::Peek(w) => {
            push_str(&mut r, "~");
            push_weight(&mut r, w);
        },
        ArcKind::Inhibit(w) => {
            push_str(&mut r, "!");
            push_weight(&mut r, w);
        },
    }
    assert(r@ =~= input_text(id@, kind));
    r
}

/// An output arc as written.
fn write_output(id: &Vec<char>, w: u32) -> (r: Vec<char>)
    ensures
        r@ == output_text(id@, w),
{
    let mut r: Vec<char> = Vec::new();
    push_str(&mut r, "@");
    push_all(&mut r, id);
    if w != 1 {
        push_str(&mut r, "*");
        let d = crate::text::decimal_chars(w as u64);
        push_all(&mut r, &d);
    }
    assert(r@ =~= output_text(id@, w));
    r
}

/// The written ids `ids` are those of the places `place_ids`, in order.
spec fn written_ids(v: ModelView, place_ids: Seq<PlaceId>, ids: Seq<Vec<char>>) -> bool {
    &&& ids.len() == place_ids.len()
    &&& forall|k: int| 0 <= k < ids.len() ==> (#[trigger] ids[k])@ == place_id_of(v, k)
}

/// The written arcs of transition `t`.
fn write_arcs(net: &PetriNet, t: TransitionId, place_ids: &Vec<PlaceId>, ids: &Vec<Vec<char>>) -> (r: (Vec<Vec<char>>, Vec<Vec<char>>))
    requires
        net.wf(),
        net@.transitions.dom().contains(t.0),
        crate::analysis::place_keys(place_ids@) == place_order(net@),
        forall|k: u64| #[trigger] net@.places.dom().contains(k) <==> place_ids@.contains(PlaceId(k)),
        forall|i: int| 0 <= i < place_ids@.len() ==> position(place_order(net@), #[trigger] place_order(net@)[i]) == i,
        written_ids(net@, place_ids@, ids@),
    ensures
        seqs(r.0@) == inputs_text(net@, t.0),
        seqs(r.1@) == outputs_text(net@, t.0),
{
    let ghost v = net@;
    let ghost po = place_order(v);
    let ins = net.inputs(t);
    let mut a: Vec<Vec<char>> = Vec::new();
    let mut i: usize = 0;
    while i < ins.len()
        invariant
            net.wf(),
            v == net@,
            po == place_order(v),
            v.transitions.dom().contains(t.0),
            ins@ == v.inputs(t.0),
            crate::analysis::place_keys(place_ids@) == po,
            forall|k: u64| #[trigger] v.places.dom().contains(k) <==> place_ids@.contains(PlaceId(k)),
            forall|j: int| 0 <= j < place_ids@.len() ==> position(po, #[trigger] po[j]) == j,
            written_ids(v, place_ids@, ids@),
            i <= ins@.len(),
            seqs(a@) == inputs_text(v, t.0).take(i as int),
        decreases ins@.len() - i,
    {
        let (p, kind) = ins[i];
        assert(v.places.dom().contains(ins@[i as int].0.0));
        let x = index_of(place_ids, p);
        assert(po[x as int] == p.0);
        let w = write_input(&ids[x], kind);
        let ghost before = seqs(a@);
        a.push(w);
        assert(seqs(a@) =~= before.push(inputs_text(v, t.0)[i as int]));
        i += 1;
        assert(inputs_text(v, t.0).take(i as int) =~= inputs_text(v, t.0).take(i - 1).push(inputs_text(v, t.0)[i - 1]));
    }
    assert(inputs_text(v, t.0).take(i as int) =~= inputs_text(v, t.0));
    let outs = net.outputs(t);
    let mut b: Vec<Vec<char>> = Vec::new();
    let mut i: usize = 0;
    while i < outs.len()
        invariant
            net.wf(),
            v == net@,
            po == place_order(v),
            v.transitions.dom().contains(t.0),
            outs@ == v.outputs(t.0),
            crate::analysis::place_keys(place_ids@) == po,
            forall|k: u64| #[trigger] v.places.dom().contains(k) <==> place_ids@.contains(PlaceId(k)),
            forall|j: int| 0 <= j < place_ids@.len() ==> position(po, #[trigger] po[j]) == j,
            written_ids(v, place_ids@, ids@),
            i <= outs@.len(),
            seqs(b@) == outputs_text(v, t.0).take(i as int),
        decreases outs@.len() - i,
    {
        let (p, w) = outs[i];
        assert(v.places.dom().contains(outs@[i as int].0.0));
        let x = index_of(place_ids, p);
        assert(po[x as int] == p.0);
        let o = write_output(&ids[x], w);
        let ghost before = seqs(b@);
        b.push(o);
        assert(seqs(b@) =~= before.push(outputs_text(v, t.0)[i as int]));
        i += 1;
        assert(outputs_text(v, t.0).take(i as int) =~= outputs_text(v, t.0).take(i - 1).push(outputs_text(v, t.0)[i - 1]));
    }
    assert(outputs_text(v, t.0).take(i as int) =~= outputs_text(v, t.0));
    (a, b)
}

/// The labels of the places `place_ids` of `net`, in order.
fn place_label_list(net: &PetriNet, place_ids: &Vec<PlaceId>) -> (r: Vec<Vec<char>>)
    requires
        net.wf(),
        crate::analysis::place_keys(place_ids@) == place_order(net@),
        forall|k: u64| #[trigger] net@.places.dom().contains(k) <==> place_ids@.contains(PlaceId(k)),
    ensures
        seqs(r@) == place_labels(net@),
{
    let ghost v = net@;
    let ghost pl = place_labels(v);
    let mut r: Vec<Vec<char>> = Vec::new();
    let mut i: usize = 0;
    while i < place_ids.len()
        invariant
            net.wf(),
            v == net@,
            pl == place_labels(v),
            crate::analysis::place_keys(place_ids@) == place_order(v),
            forall|k: u64| #[trigger] v.places.dom().contains(k) <==> place_ids@.contains(PlaceId(k)),
            i <= place_ids@.len(),
            seqs(r@) == pl.take(i as int),
        decreases place_ids@.len() - i,
    {
        let p = place_ids[i];
        assert(place_order(v)[i as int] == p.0);
        assert(v.places.dom().contains(p.0)) by {
            assert(place_ids@.contains(p));
        };
        let l = chars_of(net.place_label(p));
        let ghost before = seqs(r@);
        r.push(l);
        assert(seqs(r@) =~= before.push(pl[i as int]));
        i += 1;
        assert(pl.take(i as int) =~= pl.take(i - 1).push(pl[i - 1]));
    }
    assert(pl.take(i as int) =~= pl);
    r
}

/// The labels of the transitions `transition_ids` of `net`, in order.
fn transition_label_list(net: &PetriNet, transition_ids: &Vec<TransitionId>) -> (r: Vec<Vec<char>>)
    requires
        net.wf(),
        crate::analysis::transition_keys(transition_ids@) == transition_order(net@),
        forall|k: u64| #[trigger] net@.transitions.dom().contains(k) <==> transition_ids@.contains(TransitionId(k)),
    ensures
        seqs(r@) == transition_labels(net@),
{
    let ghost v = net@;
    let ghost tl = transition_labels(v);
    let mut r: Vec<Vec<char>> = Vec::new();
    let mut i: usize = 0;
    while i < transition_ids.len()
        invariant
            net.wf(),
            v == net@,
            tl == transition_labels(v),
            crate::analysis::transition_keys(transition_ids@) == transition_order(v),
            forall|k: u64| #[trigger] v.transitions.dom().contains(k) <==> transition_ids@.contains(TransitionId(k)),
            i <= transition_ids@.len(),
            seqs(r@) == tl.take(i as int),
        decreases transition_ids@.len() - i,
    {
        let t = transition_ids[i];
        assert(transition_order(v)[i as int] == t.0);
        assert(v.transitions.dom().contains(t.0)) by {
            assert(transition_ids@.contains(t));
        };
        let l = chars_of(net.transition_label(t));
        let ghost before = seqs(r@);
        r.push(l);
        assert(seqs(r@) =~= before.push(tl[i as int]));
        i += 1;
        assert(tl.take(i as int) =~= tl.take(i - 1).push(tl[i - 1]));
    }
    assert(tl.take(i as int) =~= tl);
    r
}

/// Writes `net` as a document: its places, then its transitions, each in
/// slot order, each node under its label where the label is a valid id.
pub fn to_dsl(net: &PetriNet) -> (s: String)
    requires
        net.wf(),
    ensures
        s@ == dsl_text(net@),
{
    let ghost v = net@;
    let place_ids = net.place_ids();
    proof {
        lemma_place_ids_in_order(v, place_ids@);
    }
    let ghost po = place_order(v);
    let mut out: Vec<char> = Vec::new();
    push_str(&mut out, "[places]\n");
    let plabels = place_label_list(net, &place_ids);
    let mut ids: Vec<Vec<char>> = Vec::new();
    let mut i: usize = 0;
    while i < place_ids.len()
        invariant
            net.wf(),
            v == net@,
            po == place_order(v),
            seqs(plabels@) == place_labels(v),
            crate::analysis::place_keys(place_ids@) == po,
            po.len() == place_ids@.len(),
            forall|k: u64| #[trigger] v.places.dom().contains(k) <==> place_ids@.contains(PlaceId(k)),
            i <= place_ids@.len(),
            out@ == "[places]\n"@ + places_text(v, i as nat),
            written_ids(v, place_ids@.take(i as int), ids@),
        decreases place_ids@.len() - i,
    {
        let p = place_ids[i];
        assert(po[i as int] == p.0);
        assert(v.places.dom().contains(p.0)) by {
            assert(place_ids@.contains(p));
        };
        let label = chars_of(net.place_label(p));
        assert(seqs(plabels@).len() == plabels@.len() && place_labels(v).len() == po.len());
        let own = own_check(&plabels, i, 'p');
        let id = write_id(&label, own, 'p', i);
        let shown = show_label(&label, &id);
        let ghost before = out@;
        push_head(&mut out, &shown, &id);
        let tokens = net.tokens(p);
        if tokens != 0 {
            push_str(&mut out, " tokens=");
            let d = crate::text::decimal_chars(tokens as u64);
            push_all(&mut out, &d);
        }
        push_str(&mut out, "\n");
        assert(out@ =~= before + place_text(v, i as int));
        ids.push(id);
        i += 1;
        assert forall|k: int| 0 <= k < ids@.len() implies (#[trigger] ids@[k])@ == place_id_of(v, k) by {};
    }
    assert(place_ids@.take(i as int) =~= place_ids@);
    push_str(&mut out, "\n[transitions]\n");
    let transition_ids = net.transition_ids();
    proof {
        lemma_transition_ids_in_order(v, transition_ids@);
    }
    let ghost to = transition_order(v);
    let tlabels = transition_label_list(net, &transition_ids);
    let ghost head = "[places]\n"@ + places_text(v, po.len()) + "\n[transitions]\n"@;
    let mut j: usize = 0;
    while j < transition_ids.len()
        invariant
            net.wf(),
            v == net@,
            seqs(tlabels@) == transition_labels(v),
            po == place_order(v),
            to == transition_order(v),
            crate::analysis::place_keys(place_ids@) == po,
            crate::analysis::transition_keys(transition_ids@) == to,
            forall|k: u64| #[trigger] v.places.dom().contains(k) <==> place_ids@.contains(PlaceId(k)),
            forall|k: u64| #[trigger] v.transitions.dom().contains(k) <==> transition_ids@.contains(TransitionId(k)),
            forall|a: int| 0 <= a < place_ids@.len() ==> position(po, #[trigger] po[a]) == a,
            written_ids(v, place_ids@, ids@),
            to.len() == transition_ids@.len(),
            j <= transition_ids@.len(),
            out@ == head + transitions_text(v, j as nat),
        decreases transition_ids@.len() - j,
    {
        let t = transition_ids[j];
        assert(to[j as int] == t.0);
        assert(v.transitions.dom().contains(t.0)) by {
            assert(transition_ids@.contains(t));
        };
        let label = chars_of(net.transition_label(t));
        assert(seqs(tlabels@).len() == tlabels@.len() && transition_labels(v).len() == to.len());
        let own = own_check(&tlabels, j, 't');
        let id = write_id(&label, own, 't', j);
        let shown = show_label(&label, &id);
        let ghost before = out@;
        push_head(&mut out, &shown, &id);
        push_str(&mut out, ": ");
        let (ins, outs) = write_arcs(net, t, &place_ids, &ids);
        push_joined(&mut out, &ins);
        push_str(&mut out, " -> ");
        push_joined(&mut out, &outs);
        push_str(&mut out, "\n");
        assert(out@ =~= before + transition_text(v, j as int));
        j += 1;
    }
    crate::text::string_of(&out)
}

/// The labels of the places of `arcs`, separated by `, `, or `—` where that leaves nothing.
pub open spec fn cell_text<K>(v: ModelView, arcs: Seq<(PlaceId, K)>) -> Seq<char> {
    let j = joined(arcs.map_values(|a: (PlaceId, K)| v.places[a.0.0].label@));
    if j.len() == 0 {
        "—"@
    } else {
        j
    }
}

/// The table row of the `j`-th transition of `v`, in slot order.
pub open spec fn markdown_row(v: ModelView, j: int) -> Seq<char> {
    let t = transition_order(v)[j];
    "| "@ + v.transitions[t].label@ + " | "@ + cell_text(v, v.transitions[t].inputs@) + " | "@ + cell_text(v, v.transitions[t].outputs@)
        + " |\n"@
}

/// The rows of the first `n` transitions.
pub open spec fn markdown_rows(v: ModelView, n: nat) -> Seq<char>
    decreases n,
{
    if n == 0 {
        Seq::empty()
    } else {
        markdown_rows(v, (n - 1) as nat) + markdown_row(v, n - 1)
    }
}

/// The pre/post-condition table of `v` in Markdown.
pub open spec fn markdown_text(v: ModelView) -> Seq<char> {
    "| Transición | Entradas (pre) | Salidas (post) |\n"@ + "| --- | --- | --- |\n"@ + markdown_rows(v, transition_order(v).len())
}

/// Appends a table cell: the labels of the places of `arcs`, or `—`.
fn push_cell<K: Copy>(out: &mut Vec<char>, net: &PetriNet, arcs: &[(PlaceId, K)])
    requires
        net.wf(),
        forall|i: int| 0 <= i < arcs@.len() ==> net@.places.dom().contains((#[trigger] arcs@[i]).0.0),
    ensures
        final(out)@ == old(out)@ + cell_text(net@, arcs@),
{
    let ghost v = net@;
    let ghost lv = arcs@.map_values(|a: (PlaceId, K)| v.places[a.0.0].label@);
    let mut labels: Vec<Vec<char>> = Vec::new();
    let mut i: usize = 0;
    while i < arcs.len()
        invariant
            net.wf(),
            v == net@,
            lv == arcs@.map_values(|a: (PlaceId, K)| v.places[a.0.0].label@),
            forall|k: int| 0 <= k < arcs@.len() ==> v.places.dom().contains((#[trigger] arcs@[k]).0.0),
            i <= arcs@.len(),
            seqs(labels@) == lv.take(i as int),
        decreases arcs@.len() - i,
    {
        let p = arcs[i].0;
        assert(v.places.dom().contains(arcs@[i as int].0.0));
        let l = chars_of(net.place_label(p));
        let ghost before = seqs(labels@);
        labels.push(l);
        assert(seqs(labels@) =~= before.push(lv[i as int]));
        i += 1;
        assert(lv.take(i as int) =~= lv.take(i - 1).push(lv[i - 1]));
    }
    assert(lv.take(i as int) =~= lv);
    let mut cell: Vec<char> = Vec::new();
    push_joined(&mut cell, &labels);
    assert(cell@ =~= joined(lv));
    if cell.len() == 0 {
        push_str(out, "—");
    } else {
        push_all(out, &cell);
    }
}

/// The pre/post-condition table of `net` in Markdown, one row per transition
/// in slot order: its label, the labels of its input places, those of its
/// output places.
pub fn to_markdown(net: &PetriNet) -> (s: String)
    requires
        net.wf(),
    ensures
        s@ == markdown_text(net@),
{
    let ghost v = net@;
    let mut out: Vec<char> = Vec::new();
    push_str(&mut out, "| Transición | Entradas (pre) | Salidas (post) |\n");
    push_str(&mut out, "| --- | --- | --- |\n");
    let ghost head = out@;
    let transition_ids = net.transition_ids();
    proof {
        lemma_transition_ids_in_order(v, transition_ids@);
    }
    let ghost to = transition_order(v);
    let mut j: usize = 0;
    while j < transition_ids.len()
        invariant
            net.wf(),
            v == net@,
            to == transition_order(v),
            crate::analysis::transition_keys(transition_ids@) == to,
            forall|k: u64| #[trigger] v.transitions.dom().contains(k) <==> transition_ids@.contains(TransitionId(k)),
            to.len() == transition_ids@.len(),
            j <= transition_ids@.len(),
            out@ == head + markdown_rows(v, j as nat),
        decreases transition_ids@.len() - j,
    {
        let t = transition_ids[j];
        assert(to[j as int] == t.0);
        assert(v.transitions.dom().contains(t.0)) by {
            assert(transition_ids@.contains(t));
        };
        let ghost before = out@;
        push_str(&mut out, "| ");
        let label = chars_of(net.transition_label(t));
        push_all(&mut out, &label);
        push_str(&mut out, " | ");
        push_cell(&mut out, net, net.inputs(t));
        push_str(&mut out, " | ");
        push_cell(&mut out, net, net.outputs(t));
        push_str(&mut out, " |\n");
        assert(out@ =~= before + markdown_row(v, j as int));
        j += 1;
    }
    crate::text::string_of(&out)
}

/// `items` separated by `, `.
pub fn join_items(items: &Vec<Vec<char>>) -> (r: Vec<char>)
    ensures
        r@ == joined(seqs(items@)),
{
    let mut r: Vec<char> = Vec::new();
    push_joined(&mut r, items);
    assert(r@ =~= joined(seqs(items@)));
    r
}

} // verus!
