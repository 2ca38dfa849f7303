use vstd::prelude::*;

use crate::serializer::{
    colon_space, deeper_spec, member_head, pad, render, render_items, render_members,
};
use crate::lexer::{
    digits_end, is_digit, is_number_char, is_sign, keyword, lex_from, lex_step, number_end,
    valid_exponent, valid_number, word_end, Fault, Tok,
};
use crate::parser::{has_key, p_array, p_object, p_value, parse_text, parse_tokens};
use crate::text::{is_ws, trimmed, ws_end, ws_start_back};
use crate::value::{element_at, key_present, member_value, AccessError, Json, JsonValue};

verus! {

/// `s` with every white-space character taken out.
pub open spec fn strip(s: Seq<char>) -> Seq<char>
    decreases s.len(),
{
    if s.len() == 0 {
        Seq::empty()
    } else if is_ws(s.last()) {
        strip(s.drop_last())
    } else {
        strip(s.drop_last()).push(s.last())
    }
}

/// Every character of `s` is white space.
pub open spec fn blank(s: Seq<char>) -> bool {
    forall|k: int| 0 <= k < s.len() ==> is_ws(#[trigger] s[k])
}

pub proof fn lemma_strip_concat(a: Seq<char>, b: Seq<char>)
    ensures
        strip(a + b) == strip(a) + strip(b),
    decreases b.len(),
{
    if b.len() == 0 {
        assert(a + b =~= a);
        assert(strip(a) + strip(b) =~= strip(a));
    } else {
        assert((a + b).drop_last() =~= a + b.drop_last());
        assert((a + b).last() == b.last());
        lemma_strip_concat(a, b.drop_last());
        if !is_ws(b.last()) {
            assert(strip(a) + strip(b.drop_last()).push(b.last()) =~= (strip(a) + strip(
                b.drop_last(),
            )).push(b.last()));
        }
    }
}

pub proof fn lemma_strip_blank(s: Seq<char>)
    requires
        blank(s),
    ensures
        strip(s) == Seq::<char>::empty(),
    decreases s.len(),
{
    if s.len() > 0 {
        assert(is_ws(s[s.len() - 1]));
        lemma_strip_blank(s.drop_last());
    }
}

/// Text with no white space is left as it is.
pub proof fn lemma_strip_solid(s: Seq<char>)
    requires
        forall|k: int| 0 <= k < s.len() ==> !is_ws(#[trigger] s[k]),
    ensures
        strip(s) == s,
    decreases s.len(),
{
    if s.len() > 0 {
        assert(!is_ws(s[s.len() - 1]));
        lemma_strip_solid(s.drop_last());
        assert(s.drop_last().push(s.last()) =~= s);
    }
}

proof fn lemma_pad_blank(mode: int, ind: Seq<char>)
    requires
        blank(ind),
    ensures
        blank(pad(mode, ind)),
        blank(deeper_spec(ind)),
        blank(colon_space(mode)),
{
    assert(blank(deeper_spec(ind))) by {
        assert forall|k: int| 0 <= k < deeper_spec(ind).len() implies is_ws(
            #[trigger] deeper_spec(ind)[k],
        ) by {
            if k >= ind.len() {
                assert(deeper_spec(ind)[k] == ' ');
            } else {
                assert(deeper_spec(ind)[k] == ind[k]);
            }
        }
    }
    if mode == 2 {
        assert forall|k: int| 0 <= k < pad(mode, ind).len() implies is_ws(
            #[trigger] pad(mode, ind)[k],
        ) by {
            if k > 0 {
                assert(pad(mode, ind)[k] == ind[k - 1]);
            }
        }
    }
}

proof fn lemma_render_modes(v: Json, mode: int, ind: Seq<char>)
    requires
        blank(ind),
    ensures
        strip(render(v, mode, ind)) == strip(render(v, 0, ind)),
    decreases v, 1nat,
{
    lemma_pad_blank(mode, ind);
    lemma_pad_blank(0, ind);
    lemma_strip_blank(pad(mode, ind));
    lemma_strip_blank(pad(0, ind));
    match v {
        Json::Arr(items) => {
            if items.len() > 0 {
                lemma_render_items_modes(items, mode, ind);
                let m = render_items(items, mode, ind);
                let z = render_items(items, 0, ind);
                lemma_strip_concat(seq!['['] + m + pad(mode, ind), seq![']']);
                lemma_strip_concat(seq!['['] + m, pad(mode, ind));
                lemma_strip_concat(seq!['['], m);
                lemma_strip_concat(seq!['['] + z + pad(0, ind), seq![']']);
                lemma_strip_concat(seq!['['] + z, pad(0, ind));
                lemma_strip_concat(seq!['['], z);
            }
        },
        Json::Obj(members) => {
            if members.len() > 0 {
                lemma_render_members_modes(members, mode, ind);
                let m = render_members(members, mode, ind);
                let z = render_members(members, 0, ind);
                lemma_strip_concat(seq!['{'] + m + pad(mode, ind), seq!['}']);
                lemma_strip_concat(seq!['{'] + m, pad(mode, ind));
                lemma_strip_concat(seq!['{'], m);
                lemma_strip_concat(seq!['{'] + z + pad(0, ind), seq!['}']);
                lemma_strip_concat(seq!['{'] + z, pad(0, ind));
                lemma_strip_concat(seq!['{'], z);
            }
        },
        _ => {},
    }
}

proof fn lemma_render_items_modes(items: Seq<Json>, mode: int, ind: Seq<char>)
    requires
        blank(ind),
    ensures
        strip(render_items(items, mode, ind)) == strip(render_items(items, 0, ind)),
    decreases items, 0nat,
{
    if items.len() > 0 {
        let d = deeper_spec(ind);
        lemma_pad_blank(mode, ind);
        lemma_pad_blank(mode, d);
        lemma_pad_blank(0, d);
        lemma_strip_blank(pad(mode, d));
        lemma_strip_blank(pad(0, d));
        lemma_render_items_modes(items.drop_last(), mode, ind);
        lemma_render_modes(items.last(), mode, d);
        let sep: Seq<char> = if items.len() == 1 { Seq::empty() } else { seq![','] };
        let pm = render_items(items.drop_last(), mode, ind);
        let pz = render_items(items.drop_last(), 0, ind);
        let lm = render(items.last(), mode, d);
        let lz = render(items.last(), 0, d);
        lemma_strip_concat(pm + sep + pad(mode, d), lm);
        lemma_strip_concat(pm + sep, pad(mode, d));
        lemma_strip_concat(pm, sep);
        lemma_strip_concat(pz + sep + pad(0, d), lz);
        lemma_strip_concat(pz + sep, pad(0, d));
        lemma_strip_concat(pz, sep);
    }
}

proof fn lemma_member_head_modes(key: Seq<char>, mode: int, ind: Seq<char>)
    requires
        blank(ind),
    ensures
        strip(member_head(key, mode, ind)) == strip(member_head(key, 0, ind)),
{
    lemma_pad_blank(mode, ind);
    lemma_pad_blank(0, ind);
    lemma_strip_blank(pad(mode, ind));
    lemma_strip_blank(pad(0, ind));
    lemma_strip_blank(colon_space(mode));
    lemma_strip_blank(colon_space(0));
    let q: Seq<char> = seq!['"'] + key + seq!['"', ':'];
    assert(member_head(key, mode, ind) =~= pad(mode, ind) + q + colon_space(mode));
    assert(member_head(key, 0, ind) =~= pad(0, ind) + q + colon_space(0));
    lemma_strip_concat(pad(mode, ind) + q, colon_space(mode));
    lemma_strip_concat(pad(mode, ind), q);
    lemma_strip_concat(pad(0, ind) + q, colon_space(0));
    lemma_strip_concat(pad(0, ind), q);
}

proof fn lemma_render_members_modes(members: Seq<(Seq<char>, Json)>, mode: int, ind: Seq<char>)
    requires
        blank(ind),
    ensures
        strip(render_members(members, mode, ind)) == strip(render_members(members, 0, ind)),
    decreases members, 0nat,
{
    if members.len() > 0 {
        let d = deeper_spec(ind);
        lemma_pad_blank(mode, ind);
        lemma_render_members_modes(members.drop_last(), mode, ind);
        assert(decreases_to!(members => members.last()));
        lemma_render_modes(members.last().1, mode, d);
        lemma_member_head_modes(members.last().0, mode, d);
        let sep: Seq<char> = if members.len() == 1 { Seq::empty() } else { seq![','] };
        let pm = render_members(members.drop_last(), mode, ind);
        let pz = render_members(members.drop_last(), 0, ind);
        let hm = member_head(members.last().0, mode, d);
        let hz = member_head(members.last().0, 0, d);
        let lm = render(members.last().1, mode, d);
        let lz = render(members.last().1, 0, d);
        lemma_strip_concat(pm + sep + hm, lm);
        lemma_strip_concat(pm + sep, hm);
        lemma_strip_concat(pm, sep);
        lemma_strip_concat(pz + sep + hz, lz);
        lemma_strip_concat(pz + sep, hz);
        lemma_strip_concat(pz, sep);
    }
}

/// The formatting modes differ only in white space: with white space taken
/// out, the spaced text (mode 1) and the indented text (mode 2) of any value
/// are its compact text (mode 0) with white space taken out, and so the compact
/// text itself wherever that holds no white space (no string or key holds any).
pub proof fn lemma_modes_differ_only_in_white_space(v: JsonValue)
    ensures
        strip(render(v@, 1, Seq::empty())) == strip(render(v@, 0, Seq::empty())),
        strip(render(v@, 2, Seq::empty())) == strip(render(v@, 0, Seq::empty())),
        (forall|k: int|
            0 <= k < render(v@, 0, Seq::empty()).len() ==> !is_ws(
                #[trigger] render(v@, 0, Seq::empty())[k],
            )) ==> strip(render(v@, 1, Seq::empty())) == render(v@, 0, Seq::empty()) && strip(
            render(v@, 2, Seq::empty()),
        ) == render(v@, 0, Seq::empty()),
{
    lemma_render_modes(v@, 1, Seq::empty());
    lemma_render_modes(v@, 2, Seq::empty());
    if forall|k: int|
        0 <= k < render(v@, 0, Seq::empty()).len() ==> !is_ws(
            #[trigger] render(v@, 0, Seq::empty())[k],
        ) {
        lemma_strip_solid(render(v@, 0, Seq::empty()));
    }
}

/// The text that a number value holds when the reader can read it back: the
/// number syntax, starting with a digit or `-`.
pub open spec fn number_text(t: Seq<char>) -> bool {
    &&& t.len() > 0
    &&& (is_digit(t[0]) || t[0] == '-')
    &&& valid_number(t)
}

proof fn lemma_digits_end(t: Seq<char>, k: int)
    requires
        0 <= k <= t.len(),
    ensures
        k <= digits_end(t, k) <= t.len(),
        forall|j: int| k <= j < digits_end(t, k) ==> is_digit(#[trigger] t[j]),
    decreases t.len() - k,
{
    if k < t.len() && is_digit(t[k]) {
        lemma_digits_end(t, k + 1);
    }
}

proof fn lemma_valid_number_chars(t: Seq<char>)
    requires
        valid_number(t),
    ensures
        forall|k: int| 0 <= k < t.len() ==> is_number_char(#[trigger] t[k]),
{
    let a: int = if t.len() > 0 && is_sign(t[0]) { 1 } else { 0 };
    lemma_digits_end(t, a);
    let b = digits_end(t, a);
    let point = b < t.len() && t[b] == '.';
    let c = if point { b + 1 } else { b };
    if point {
        lemma_digits_end(t, c);
    }
    let d = if point { digits_end(t, c) } else { b };
    if d < t.len() {
        assert(valid_exponent(t, d));
        let f = if d + 1 < t.len() && is_sign(t[d + 1]) { d + 2 } else { d + 1 };
        lemma_digits_end(t, f);
    }
}

proof fn lemma_number_end_all(s: Seq<char>, k: int)
    requires
        0 <= k <= s.len(),
        forall|j: int| k <= j < s.len() ==> is_number_char(#[trigger] s[j]),
    ensures
        number_end(s, k) == s.len(),
    decreases s.len() - k,
{
    if k < s.len() {
        lemma_number_end_all(s, k + 1);
    }
}

proof fn lemma_word_end_all(s: Seq<char>, k: int)
    requires
        0 <= k <= s.len(),
        forall|j: int| k <= j < s.len() ==> 'a' <= #[trigger] s[j] <= 'z',
    ensures
        word_end(s, k) == s.len(),
    decreases s.len() - k,
{
    if k < s.len() {
        lemma_word_end_all(s, k + 1);
    }
}

/// A text that is one token and no white space at either end reads as that token's value.
proof fn lemma_one_token_text(s: Seq<char>, t: Tok, v: Json)
    requires
        s.len() > 0,
        !is_ws(s[0]),
        !is_ws(s[s.len() - 1]),
        lex_step(s, 0) == Ok::<(Seq<(Tok, int)>, int), Fault>(
            (seq![(t, 0int)], s.len() as int),
        ),
        p_value(seq![(t, 0int)], s.len() as int, 0) == Ok::<
            (Json, int),
            Fault,
        >((v, 1int)),
    ensures
        parse_text(s) == Ok::<Json, Fault>(v),
{
    assert(ws_end(s, 0) == 0);
    assert(ws_start_back(s, s.len() as int) == s.len());
    assert(trimmed(s) =~= s);
    assert(lex_from(s, s.len() as int) == Ok::<
        Seq<(Tok, int)>,
        Fault,
    >(Seq::empty()));
    assert(seq![(t, 0int)] + Seq::<(Tok, int)>::empty() =~= seq![(t, 0int)]);
}

proof fn lemma_keyword_text(s: Seq<char>, t: Tok, v: Json)
    requires
        s.len() > 0,
        'f' <= s[0] <= 't',
        forall|j: int| 0 <= j < s.len() ==> 'a' <= #[trigger] s[j] <= 'z',
        keyword(s) == Some(t),
        p_value(seq![(t, 0int)], s.len() as int, 0) == Ok::<
            (Json, int),
            Fault,
        >((v, 1int)),
    ensures
        parse_text(s) == Ok::<Json, Fault>(v),
{
    lemma_word_end_all(s, 0);
    assert(s.subrange(0, s.len() as int) =~= s);
    assert('a' <= s[s.len() - 1] <= 'z');
    lemma_one_token_text(s, t, v);
}

/// Scalars survive a round trip: the compact text of `null`, of a boolean, or
/// of a number whose text is in the number syntax reads back as the same value.
pub proof fn lemma_scalar_round_trip(v: JsonValue)
    requires
        v is Null || v is Boolean || (v is Number && number_text(v->Number_0@)),
    ensures
        parse_text(render(v@, 0, Seq::empty())) == Ok::<Json, Fault>(v@),
{
    match v {
        JsonValue::Null => {
            lemma_keyword_text(seq!['n', 'u', 'l', 'l'], Tok::Null, Json::Null);
        },
        JsonValue::Boolean(b) => {
            if b {
                lemma_keyword_text(seq!['t', 'r', 'u', 'e'], Tok::Bool(true), Json::Bool(true));
            } else {
                lemma_keyword_text(
                    seq!['f', 'a', 'l', 's', 'e'],
                    Tok::Bool(false),
                    Json::Bool(false),
                );
            }
        },
        JsonValue::Number(n) => {
            let t = n@;
            lemma_valid_number_chars(t);
            lemma_number_end_all(t, 0);
            assert(t.subrange(0, t.len() as int) =~= t);
            assert(is_number_char(t[t.len() - 1]));
            lemma_one_token_text(t, Tok::Num(t), Json::Num(t));
        },
        _ => {},
    }
}

/// No two members of `members` have the same key.
pub open spec fn unique_keys(members: Seq<(Seq<char>, Json)>) -> bool {
    forall|a: int, b: int|
        0 <= a < b < members.len() ==> #[trigger] members[a].0 != #[trigger] members[b].0
}

/// The invariant of a value that the reader builds: the keys of each object
/// are unique, and each number holds text in the number syntax.
pub open spec fn well_formed(v: Json) -> bool
    decreases v,
{
    match v {
        Json::Num(t) => number_text(t),
        Json::Arr(items) => forall|k: int|
            0 <= k < items.len() ==> well_formed(#[trigger] items[k]),
        Json::Obj(members) => unique_keys(members) && forall|k: int|
            0 <= k < members.len() ==> well_formed(#[trigger] members[k].1),
        _ => true,
    }
}

/// Every number token holds text in the number syntax.
pub open spec fn tokens_ok(ts: Seq<(Tok, int)>) -> bool {
    forall|k: int| 0 <= k < ts.len() && #[trigger] ts[k].0 is Num ==> number_text(ts[k].0->Num_0)
}

proof fn lemma_lex_tokens_ok(s: Seq<char>, i: int)
    ensures
        lex_from(s, i) is Ok ==> tokens_ok(lex_from(s, i)->Ok_0),
    decreases s.len() - i,
{
    if 0 <= i < s.len() {
        match lex_step(s, i) {
            Ok((t, j)) => {
                if j > i && j <= s.len() {
                    lemma_lex_tokens_ok(s, j);
                    if lex_from(s, j) is Ok {
                        let rest = lex_from(s, j)->Ok_0;
                        let c = s[i];
                        if is_digit(c) || c == '-' {
                            let e = number_end(s, i);
                            assert(number_end(s, i) == number_end(s, i + 1));
                            lemma_number_end_ge(s, i + 1);
                            assert(s.subrange(i, e)[0] == c);
                        }
                        assert(lex_from(s, i)->Ok_0 == t + rest);
                        assert forall|k: int|
                            0 <= k < (t + rest).len() && #[trigger] (t + rest)[k].0 is Num implies number_text(
                            (t + rest)[k].0->Num_0,
                        ) by {
                            if k >= t.len() {
                                assert((t + rest)[k] == rest[k - t.len()]);
                            }
                        }
                    }
                }
            },
            Err(_) => {},
        }
    }
}

proof fn lemma_number_end_ge(s: Seq<char>, k: int)
    requires
        0 <= k,
    ensures
        number_end(s, k) >= k,
    decreases s.len() - k,
{
    if 0 <= k < s.len() && is_number_char(s[k]) {
        lemma_number_end_ge(s, k + 1);
    }
}

proof fn lemma_p_value_wf(ts: Seq<(Tok, int)>, n: int, i: int)
    requires
        tokens_ok(ts),
    ensures
        p_value(ts, n, i) is Ok ==> well_formed(p_value(ts, n, i)->Ok_0.0),
    decreases ts.len() - i, 1nat,
{
    if 0 <= i < ts.len() {
        match ts[i].0 {
            Tok::LBracket => lemma_p_array_wf(ts, n, i + 1, Seq::empty()),
            Tok::LBrace => lemma_p_object_wf(ts, n, i + 1, Seq::empty()),
            _ => {},
        }
    }
}

proof fn lemma_p_array_wf(ts: Seq<(Tok, int)>, n: int, i: int, acc: Seq<Json>)
    requires
        tokens_ok(ts),
        forall|k: int| 0 <= k < acc.len() ==> well_formed(#[trigger] acc[k]),
    ensures
        p_array(ts, n, i, acc) is Ok ==> well_formed(p_array(ts, n, i, acc)->Ok_0.0),
    decreases ts.len() - i, 2nat,
{
    if 0 <= i < ts.len() {
        match ts[i].0 {
            Tok::RBracket => {},
            Tok::Colon => {},
            Tok::Comma => {},
            _ => {
                lemma_p_value_wf(ts, n, i);
                match p_value(ts, n, i) {
                    Ok((v, j)) => {
                        if j > i && j < ts.len() {
                            let next = acc.push(v);
                            assert forall|k: int| 0 <= k < next.len() implies well_formed(
                                #[trigger] next[k],
                            ) by {
                                if k < acc.len() {
                                    assert(next[k] == acc[k]);
                                }
                            }
                            if ts[j].0 is Comma {
                                lemma_p_array_wf(ts, n, j + 1, next);
                            }
                        }
                    },
                    Err(_) => {},
                }
            },
        }
    }
}

proof fn lemma_p_object_wf(ts: Seq<(Tok, int)>, n: int, i: int, acc: Seq<(Seq<char>, Json)>)
    requires
        tokens_ok(ts),
        unique_keys(acc),
        forall|k: int| 0 <= k < acc.len() ==> well_formed(#[trigger] acc[k].1),
    ensures
        p_object(ts, n, i, acc) is Ok ==> well_formed(p_object(ts, n, i, acc)->Ok_0.0),
    decreases ts.len() - i, 2nat,
{
    if 0 <= i < ts.len() {
        match ts[i].0 {
            Tok::Str(key) => {
                if i + 1 < ts.len() && ts[i + 1].0 is Colon && !has_key(acc, key) {
                    lemma_p_value_wf(ts, n, i + 2);
                    match p_value(ts, n, i + 2) {
                        Ok((v, j)) => {
                            if j > i && j < ts.len() {
                                let next = acc.push((key, v));
                                assert forall|k: int| 0 <= k < next.len() implies well_formed(
                                    #[trigger] next[k].1,
                                ) by {
                                    if k < acc.len() {
                                        assert(next[k] == acc[k]);
                                    }
                                }
                                assert forall|a: int, b: int|
                                    0 <= a < b < next.len() implies #[trigger] next[a].0
                                    != #[trigger] next[b].0 by {
                                    assert(next[a] == acc[a]);
                                    if b == acc.len() {
                                        assert(!(acc[a].0 == key));
                                    } else {
                                        assert(next[b] == acc[b]);
                                    }
                                }
                                if ts[j].0 is Comma {
                                    lemma_p_object_wf(ts, n, j + 1, next);
                                }
                            }
                        },
                        Err(_) => {},
                    }
                }
            },
            _ => {},
        }
    }
}

/// What the reader builds is well formed: the keys of each object are unique
/// and each number holds text in the number syntax.
pub proof fn lemma_parse_well_formed(text: Seq<char>)
    ensures
        parse_text(text) is Ok ==> well_formed(parse_text(text)->Ok_0),
{
    let s = trimmed(text);
    lemma_lex_tokens_ok(s, 0);
    if lex_from(s, 0) is Ok {
        lemma_p_value_wf(lex_from(s, 0)->Ok_0, s.len() as int, 0);
    }
}

/// Indexing faults: looking up a position or a key in a number is a type
/// mismatch; a position at or past an array's end is out of bounds; a key that
/// no member of an object has is not found. `JsonValue::index` and
/// `JsonValue::index_key` give exactly `element_at` and `member_value`.
pub proof fn lemma_indexing_faults(v: JsonValue, i: int, k: Seq<char>)
    ensures
        v@ is Num ==> element_at(v@, i) == Err::<Json, AccessError>(AccessError::TypeMismatch)
            && member_value(v@, k) == Err::<Json, AccessError>(AccessError::TypeMismatch),
        v@ is Arr && i >= v@->Arr_0.len() ==> element_at(v@, i) == Err::<Json, AccessError>(
            AccessError::IndexOutOfBounds,
        ),
        v@ is Obj && !key_present(v@->Obj_0, k) ==> member_value(v@, k) == Err::<
            Json,
            AccessError,
        >(AccessError::KeyNotFound),
{
}

} // verus!
