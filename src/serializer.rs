use vstd::prelude::*;

use crate::text::{chars_of, push_char, push_chars};
use crate::value::{lemma_member_models_index, lemma_models_index, member_models, models, Json, JsonValue};

verus! {

broadcast use vstd::std_specs::vec::axiom_vec_index_decreases;

/// What stands before an element (at the element's indentation `ind`) or
/// before a closing bracket (at the parent's indentation).
pub open spec fn pad(mode: int, ind: Seq<char>) -> Seq<char> {
    if mode == 1 {
        seq![' ']
    } else if mode == 2 {
        seq!['\n'] + ind
    } else {
        Seq::empty()
    }
}

/// How one character of a string is written inside quotes.
pub open spec fn escape_char(c: char) -> Seq<char> {
    if c == '\\' {
        seq!['\\', '\\']
    } else if c == '/' {
        seq!['\\', '/']
    } else if c == '"' {
        seq!['\\', '"']
    } else if c == '\u{8}' {
        seq!['\\', 'b']
    } else if c == '\u{c}' {
        seq!['\\', 'f']
    } else if c == '\n' {
        seq!['\\', 'n']
    } else if c == '\r' {
        seq!['\\', 'r']
    } else if c == '\t' {
        seq!['\\', 't']
    } else {
        seq![c]
    }
}

/// A string's characters, each written as `escape_char` says.
pub open spec fn escaped(s: Seq<char>) -> Seq<char>
    decreases s.len(),
{
    if s.len() == 0 {
        Seq::empty()
    } else {
        escaped(s.drop_last()) + escape_char(s.last())
    }
}

/// The indentation one level deeper than `ind`.
pub open spec fn deeper_spec(ind: Seq<char>) -> Seq<char> {
    ind + seq![' ', ' ']
}

/// The space after an object key's colon.
pub open spec fn colon_space(mode: int) -> Seq<char> {
    if mode == 1 || mode == 2 {
        seq![' ']
    } else {
        Seq::empty()
    }
}

/// The text of a value in formatting mode `mode` (1: spaces, 2: lines and
/// indentation, any other: compact), where `ind` is the current indentation.
pub open spec fn render(v: Json, mode: int, ind: Seq<char>) -> Seq<char>
    decreases v, 1nat,
{
    match v {
        Json::Null => seq!['n', 'u', 'l', 'l'],
        Json::Bool(b) => if b {
            seq!['t', 'r', 'u', 'e']
        } else {
            seq!['f', 'a', 'l', 's', 'e']
        },
        Json::Num(t) => t,
        Json::Str(s) => seq!['"'] + escaped(s) + seq!['"'],
        Json::Arr(items) => if items.len() == 0 {
            seq!['[', ']']
        } else {
            seq!['['] + render_items(items, mode, ind) + pad(mode, ind) + seq![']']
        },
        Json::Obj(members) => if members.len() == 0 {
            seq!['{', '}']
        } else {
            seq!['{'] + render_members(members, mode, ind) + pad(mode, ind) + seq!['}']
        },
    }
}

/// The elements of a non-empty array, separated by commas, each after its padding.
pub open spec fn render_items(items: Seq<Json>, mode: int, ind: Seq<char>) -> Seq<char>
    decreases items, 0nat,
{
    if items.len() == 0 {
        Seq::empty()
    } else {
        let prev = render_items(items.drop_last(), mode, ind);
        let sep: Seq<char> = if items.len() == 1 { Seq::empty() } else { seq![','] };
        prev + sep + pad(mode, deeper_spec(ind)) + render(items.last(), mode, deeper_spec(ind))
    }
}

/// What comes before a member's value: its padding, its quoted key and a colon.
pub open spec fn member_head(key: Seq<char>, mode: int, ind: Seq<char>) -> Seq<char> {
    pad(mode, ind) + seq!['"'] + key + seq!['"', ':'] + colon_space(mode)
}

/// The members of a non-empty object, as `"key":value`, separated by commas.
pub open spec fn render_members(members: Seq<(Seq<char>, Json)>, mode: int, ind: Seq<char>) -> Seq<
    char,
>
    decreases members, 0nat,
{
    if members.len() == 0 {
        Seq::empty()
    } else {
        let prev = render_members(members.drop_last(), mode, ind);
        let sep: Seq<char> = if members.len() == 1 { Seq::empty() } else { seq![','] };
        prev + sep + member_head(members.last().0, mode, deeper_spec(ind)) + render(
            members.last().1,
            mode,
            deeper_spec(ind),
        )
    }
}

fn deeper(ind: &Vec<char>) -> (r: Vec<char>)
    ensures
        r@ == deeper_spec(ind@),
{
    let mut r: Vec<char> = Vec::new();
    let mut k: usize = 0;
    while k < ind.len()
        invariant
            0 <= k <= ind.len(),
            r@ == ind@.subrange(0, k as int),
        decreases ind.len() - k,
    {
        r.push(ind[k]);
        proof {
            assert(r@ =~= ind@.subrange(0, k + 1));
        }
        k = k + 1;
    }
    r.push(' ');
    r.push(' ');
    proof {
        assert(r@ =~= deeper_spec(ind@));
    }
    r
}

fn write_pad(out: &mut String, mode: i32, ind: &Vec<char>)
    ensures
        final(out)@ == old(out)@ + pad(mode as int, ind@),
{
    if mode == 1 {
        push_char(out, ' ');
    } else if mode == 2 {
        push_char(out, '\n');
        push_chars(out, ind);
        proof {
            assert(final(out)@ =~= old(out)@ + pad(mode as int, ind@));
        }
    } else {
        assert(old(out)@ + pad(mode as int, ind@) =~= old(out)@);
    }
}

fn write_text(out: &mut String, t: &String)
    ensures
        final(out)@ == old(out)@ + t@,
{
    let cs = chars_of(t.as_str());
    let n = cs.len();
    let mut k: usize = 0;
    while k < n
        invariant
            0 <= k <= n,
            n == t@.len(),
            cs@ == t@,
            out@ == old(out)@ + t@.subrange(0, k as int),
        decreases n - k,
    {
        push_char(out, cs[k]);
        proof {
            assert(out@ =~= old(out)@ + t@.subrange(0, k + 1));
        }
        k = k + 1;
    }
    assert(t@.subrange(0, n as int) =~= t@);
}

fn write_member_head(out: &mut String, key: &String, mode: i32, ind: &Vec<char>)
    ensures
        final(out)@ == old(out)@ + member_head(key@, mode as int, ind@),
{
    write_pad(out, mode, ind);
    push_char(out, '"');
    write_text(out, key);
    push_char(out, '"');
    push_char(out, ':');
    if mode == 1 || mode == 2 {
        push_char(out, ' ');
    }
    assert(final(out)@ =~= old(out)@ + member_head(key@, mode as int, ind@));
}

fn write_escaped(out: &mut String, s: &String)
    ensures
        final(out)@ == old(out)@ + escaped(s@),
{
    let cs = chars_of(s.as_str());
    let n = cs.len();
    let mut k: usize = 0;
    while k < n
        invariant
            0 <= k <= n,
            n == s@.len(),
            cs@ == s@,
            out@ == old(out)@ + escaped(s@.subrange(0, k as int)),
        decreases n - k,
    {
        let c = cs[k];
        let ghost before = out@;
        if c == '\\' {
            push_char(out, '\\');
            push_char(out, '\\');
        } else if c == '/' {
            push_char(out, '\\');
            push_char(out, '/');
        } else if c == '"' {
            push_char(out, '\\');
            push_char(out, '"');
        } else if c == '\u{8}' {
            push_char(out, '\\');
            push_char(out, 'b');
        } else if c == '\u{c}' {
            push_char(out, '\\');
            push_char(out, 'f');
        } else if c == '\n' {
            push_char(out, '\\');
            push_char(out, 'n');
        } else if c == '\r' {
            push_char(out, '\\');
            push_char(out, 'r');
        } else if c == '\t' {
            push_char(out, '\\');
            push_char(out, 't');
        } else {
            push_char(out, c);
        }
        proof {
            let t = s@.subrange(0, k + 1);
            assert(t.drop_last() =~= s@.subrange(0, k as int));
            assert(out@ =~= before + escape_char(c));
            assert(out@ =~= old(out)@ + escaped(t));
        }
        k = k + 1;
    }
    proof {
        assert(s@.subrange(0, n as int) =~= s@);
    }
}

/// Appends the text of `v` in mode `mode` at indentation `ind` to `out`.
pub fn write_value(out: &mut String, v: &JsonValue, mode: i32, ind: &Vec<char>)
    ensures
        final(out)@ == old(out)@ + render(v@, mode as int, ind@),
    decreases v,
{
    match v {
        JsonValue::Null => {
            push_char(out, 'n');
            push_char(out, 'u');
            push_char(out, 'l');
            push_char(out, 'l');
            assert(final(out)@ =~= old(out)@ + render(v@, mode as int, ind@));
        },
        JsonValue::Boolean(b) => {
            if *b {
                push_char(out, 't');
                push_char(out, 'r');
                push_char(out, 'u');
                push_char(out, 'e');
            } else {
                push_char(out, 'f');
                push_char(out, 'a');
                push_char(out, 'l');
                push_char(out, 's');
                push_char(out, 'e');
            }
            assert(final(out)@ =~= old(out)@ + render(v@, mode as int, ind@));
        },
        JsonValue::Number(t) => {
            write_text(out, t);
        },
        JsonValue::String(s) => {
            push_char(out, '"');
            write_escaped(out, s);
            push_char(out, '"');
            assert(final(out)@ =~= old(out)@ + render(v@, mode as int, ind@));
        },
        JsonValue::Array(items) => {
            let ghost ms = models(items@);
            proof {
                lemma_models_index(items@);
            }
            if items.len() == 0 {
                push_char(out, '[');
                push_char(out, ']');
                assert(final(out)@ =~= old(out)@ + render(v@, mode as int, ind@));
                return;
            }
            push_char(out, '[');
            let child = deeper(ind);
            let mut k: usize = 0;
            while k < items.len()
                invariant
                    0 <= k <= items.len(),
                    ms == models(items@),
                    *v == JsonValue::Array(*items),
                    ms.len() == items.len(),
                    forall|m: int| 0 <= m < items.len() ==> #[trigger] ms[m] == (items@[m])@,
                    child@ == deeper_spec(ind@),
                    out@ == old(out)@ + seq!['['] + render_items(
                        ms.subrange(0, k as int),
                        mode as int,
                        ind@,
                    ),
                decreases items.len() - k,
            {
                let ghost before = out@;
                if k > 0 {
                    push_char(out, ',');
                }
                write_pad(out, mode, &child);
                proof {
                    assert(decreases_to!(items => items[k as int]));
                    assert(decreases_to!(*v => v->Array_0));
                }
                write_value(out, &items[k], mode, &child);
                proof {
                    let t = ms.subrange(0, k + 1);
                    assert(t.drop_last() =~= ms.subrange(0, k as int));
                    assert(t.last() == ms[k as int]);
                    let sep: Seq<char> = if k == 0 { Seq::empty() } else { seq![','] };
                    assert(out@ =~= before + sep + pad(mode as int, child@) + render(
                        ms[k as int],
                        mode as int,
                        child@,
                    ));
                    assert(out@ =~= old(out)@ + seq!['['] + render_items(t, mode as int, ind@));
                }
                k = k + 1;
            }
            let ghost before = out@;
            write_pad(out, mode, ind);
            push_char(out, ']');
            proof {
                assert(ms.subrange(0, ms.len() as int) =~= ms);
                assert(final(out)@ =~= old(out)@ + render(v@, mode as int, ind@));
            }
        },
        JsonValue::Object(members) => {
            let ghost ms = member_models(members@);
            proof {
                lemma_member_models_index(members@);
            }
            if members.len() == 0 {
                push_char(out, '{');
                push_char(out, '}');
                assert(final(out)@ =~= old(out)@ + render(v@, mode as int, ind@));
                return;
            }
            push_char(out, '{');
            let child = deeper(ind);
            let mut k: usize = 0;
            while k < members.len()
                invariant
                    0 <= k <= members.len(),
                    ms == member_models(members@),
                    *v == JsonValue::Object(*members),
                    ms.len() == members.len(),
                    forall|m: int|
                        0 <= m < members.len() ==> #[trigger] ms[m] == (
                            members@[m].0@,
                            (members@[m].1)@,
                        ),
                    child@ == deeper_spec(ind@),
                    out@ == old(out)@ + seq!['{'] + render_members(
                        ms.subrange(0, k as int),
                        mode as int,
                        ind@,
                    ),
                decreases members.len() - k,
            {
                let ghost before = out@;
                if k > 0 {
                    push_char(out, ',');
                }
                write_member_head(out, &members[k].0, mode, &child);
                let ghost before_value = out@;
                proof {
                    assert(decreases_to!(members => members[k as int]));
                    assert(decreases_to!(members[k as int] => members[k as int].1));
                    assert(decreases_to!(*v => v->Object_0));
                }
                write_value(out, &members[k].1, mode, &child);
                proof {
                    let t = ms.subrange(0, k + 1);
                    assert(t.drop_last() =~= ms.subrange(0, k as int));
                    assert(t.last() == ms[k as int]);
                    let sep: Seq<char> = if k == 0 { Seq::empty() } else { seq![','] };
                    assert(before_value =~= before + sep + member_head(
                        ms[k as int].0,
                        mode as int,
                        child@,
                    ));
                    assert(out@ =~= old(out)@ + seq!['{'] + render_members(t, mode as int, ind@));
                }
                k = k + 1;
            }
            write_pad(out, mode, ind);
            push_char(out, '}');
            proof {
                assert(ms.subrange(0, ms.len() as int) =~= ms);
                assert(final(out)@ =~= old(out)@ + render(v@, mode as int, ind@));
            }
        },
    }
}

} // verus!
