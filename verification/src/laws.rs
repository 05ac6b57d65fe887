//! Laws of the parser, stated and proved over its mathematical model.

use vstd::prelude::*;

use crate::json::{
    entries_wf, entry_values_wf, lemma_upsert_entry_absent, lemma_upsert_entry_wf,
    lemma_values_wf_push, root_wf, upsert_entry, value_wf, values_wf, RootModel, ValueModel,
};
use crate::lexer::{
    false_lit, is_alnum_byte, is_alpha_byte, is_digit_byte, is_number_lit, is_ws_byte,
    lemma_alnum_run_to, lemma_next_token_progress, lemma_num_run_to, lemma_number_lit_bytes,
    lemma_scan_body_spelled, lemma_skip_ws_stops_at,
    lemma_skip_ws_to, null_lit, scan_string, skip_ws_from, spec_next_token, spec_tokens_from,
    str_body_ok, true_lit,
};
use crate::parser::{
    root_to_value, sp_array, sp_array_items, sp_kvp, sp_object, sp_object_items, sp_parse,
    sp_value, spec_parse_document, step, tok_at, ErrorModel,
};
use crate::token::TokenModel;

verus! {

/// Parsing is a pure function of the document text: two parses of equal
/// text agree on the outcome, and in particular a text that fails once
/// fails every time with the same error kind at the same offset.
pub proof fn lemma_parse_deterministic(
    s: Seq<u8>,
    r1: Result<RootModel, ErrorModel>,
    r2: Result<RootModel, ErrorModel>,
)
    requires
        r1 == spec_parse_document(s),
        r2 == spec_parse_document(s),
    ensures
        r1 == r2,
{
}

/// A byte that no token may start with: an ASCII control byte that is
/// not whitespace, or a backslash outside a string.
pub open spec fn is_stray_byte(b: u8) -> bool {
    (b < 32 && !is_ws_byte(b)) || b == 127 || b == 92
}

/// A document whose first byte is an unescaped control character or a
/// stray backslash fails, and the failure carries that byte's offset.
pub proof fn lemma_stray_first_byte_rejected(s: Seq<u8>)
    requires
        s.len() > 0,
        is_stray_byte(s[0]),
    ensures
        spec_parse_document(s) == Err::<RootModel, ErrorModel>(ErrorModel::IllegalToken(0)),
{
    assert(skip_ws_from(s, 0) == 0);
    assert(spec_next_token(s, 0) == (TokenModel::Illegal(0int), 1int));
    let toks = spec_tokens_from(s, 0);
    assert(toks == seq![TokenModel::Illegal(0int)] + spec_tokens_from(s, 1));
    assert(tok_at(toks, 0) == TokenModel::Illegal(0int));
}

/// What the document wrapper accepts: a document text parses as a whole
/// exactly when its token sequence parses as one object or array whose
/// closing token is the last token of the text; a parse that succeeds
/// with tokens left over is trailing input, and a failing parse keeps
/// its error.
pub proof fn lemma_document_outcome(s: Seq<u8>)
    ensures
        ({
            let toks = spec_tokens_from(s, 0);
            match sp_parse(toks, 0) {
                Ok((root, c1)) => if toks.len() <= c1 + 2 {
                    spec_parse_document(s) == Ok::<RootModel, ErrorModel>(root)
                } else {
                    spec_parse_document(s) == Err::<RootModel, ErrorModel>(
                        ErrorModel::TrailingInput,
                    )
                },
                Err(e) => spec_parse_document(s) == Err::<RootModel, ErrorModel>(e),
            }
        }),
{
}

// ---------------------------------------------------------------------------
// Parsed documents are well formed
// ---------------------------------------------------------------------------

/// Keys stay unique through the object loop: storing each parsed pair
/// into a unique-keyed accumulator yields unique-keyed entries.
proof fn lemma_sp_object_items_wf(toks: Seq<TokenModel>, c: int, acc: Seq<(Seq<u8>, ValueModel)>)
    requires
        entries_wf(acc),
        entry_values_wf(acc),
    ensures
        sp_object_items(toks, c, acc) matches Ok((entries, _c1)) ==> entries_wf(entries)
            && entry_values_wf(entries),
    decreases toks.len() - c, 3int,
{
    match sp_kvp(toks, c) {
        Err(_) => {},
        Ok((key, val, c1)) => {
            lemma_sp_kvp_wf(toks, c);
            let c2 = step(toks, c, c1);
            let acc2 = upsert_entry(acc, key, val);
            lemma_upsert_entry_wf(acc, key, val);
            match tok_at(toks, c2 + 1) {
                TokenModel::RightBrace => {},
                TokenModel::EndOfInput => {},
                TokenModel::Comma => {
                    lemma_sp_object_items_wf(toks, c2 + 1, acc2);
                },
                _ => {
                    lemma_sp_object_items_wf(toks, c2, acc2);
                },
            }
        },
    }
}

/// A parsed object has unique keys and well-formed values.
proof fn lemma_sp_object_wf(toks: Seq<TokenModel>, c: int)
    ensures
        sp_object(toks, c) matches Ok((entries, _c1)) ==> entries_wf(entries) && entry_values_wf(
            entries,
        ),
    decreases toks.len() - c, 4int,
{
    if !(tok_at(toks, c + 1) is RightBrace) {
        lemma_sp_object_items_wf(toks, c, Seq::empty());
    }
}

/// The elements collected by the array loop are well formed.
proof fn lemma_sp_array_items_wf(toks: Seq<TokenModel>, c: int, acc: Seq<ValueModel>)
    requires
        values_wf(acc),
    ensures
        sp_array_items(toks, c, acc) matches Ok((elems, _c1)) ==> values_wf(elems),
    decreases toks.len() - c, 3int,
{
    match sp_value(toks, c) {
        Err(_) => {},
        Ok((val, c1)) => {
            lemma_sp_value_wf(toks, c);
            let c2 = step(toks, c, c1);
            let acc2 = acc.push(val);
            lemma_values_wf_push(acc, val);
            match tok_at(toks, c2 + 1) {
                TokenModel::RightBracket => {},
                TokenModel::EndOfInput => {},
                TokenModel::Comma => {
                    lemma_sp_array_items_wf(toks, c2 + 1, acc2);
                },
                _ => {
                    lemma_sp_array_items_wf(toks, c2, acc2);
                },
            }
        },
    }
}

/// A parsed array holds well-formed elements.
proof fn lemma_sp_array_wf(toks: Seq<TokenModel>, c: int)
    ensures
        sp_array(toks, c) matches Ok((elems, _c1)) ==> values_wf(elems),
    decreases toks.len() - c, 4int,
{
    if !(tok_at(toks, c + 1) is RightBracket) {
        lemma_sp_array_items_wf(toks, c, Seq::empty());
    }
}

/// The value of a parsed key/value pair is well formed.
proof fn lemma_sp_kvp_wf(toks: Seq<TokenModel>, c: int)
    ensures
        sp_kvp(toks, c) matches Ok((_key, val, _c1)) ==> value_wf(val),
    decreases toks.len() - c, 2int,
{
    match tok_at(toks, c + 1) {
        TokenModel::String(_) => {
            if tok_at(toks, c + 2) is Colon {
                lemma_sp_value_wf(toks, c + 2);
            }
        },
        _ => {},
    }
}

/// A parsed value is well formed.
proof fn lemma_sp_value_wf(toks: Seq<TokenModel>, c: int)
    ensures
        sp_value(toks, c) matches Ok((val, _c1)) ==> value_wf(val),
    decreases toks.len() - c, 1int,
{
    match tok_at(toks, c + 1) {
        TokenModel::LeftBrace => {
            lemma_sp_parse_wf(toks, c + 1);
        },
        TokenModel::LeftBracket => {
            lemma_sp_parse_wf(toks, c + 1);
        },
        _ => {},
    }
}

/// A parsed document is well formed.
proof fn lemma_sp_parse_wf(toks: Seq<TokenModel>, c: int)
    ensures
        sp_parse(toks, c) matches Ok((root, _c1)) ==> root_wf(root),
    decreases toks.len() - c, 5int,
{
    match tok_at(toks, c) {
        TokenModel::LeftBrace => {
            lemma_sp_object_wf(toks, c);
        },
        TokenModel::LeftBracket => {
            lemma_sp_array_wf(toks, c);
        },
        _ => {},
    }
}

/// Object keys are unique at the data-structure level: every object
/// anywhere in a parsed document has pairwise distinct keys, because a
/// repeated source key overwrites the entry it first created.
pub proof fn lemma_parse_document_wf(s: Seq<u8>)
    ensures
        spec_parse_document(s) matches Ok(root) ==> root_wf(root),
{
    lemma_sp_parse_wf(spec_tokens_from(s, 0), 0);
}

// ---------------------------------------------------------------------------
// The literal-to-value mapping, and the round trip through the parser
// ---------------------------------------------------------------------------

/// The token spelling of a value: the sequence of tokens that a document
/// literal denoting this value scans to.
pub open spec fn toks_of_value(v: ValueModel) -> Seq<TokenModel>
    decreases v,
{
    match v {
        ValueModel::Object(entries) => seq![TokenModel::LeftBrace] + toks_of_entries(entries)
            + seq![TokenModel::RightBrace],
        ValueModel::Array(elems) => seq![TokenModel::LeftBracket] + toks_of_elems(elems)
            + seq![TokenModel::RightBracket],
        ValueModel::Boolean(flag) => if flag {
            seq![TokenModel::True]
        } else {
            seq![TokenModel::False]
        },
        ValueModel::Null => seq![TokenModel::Null],
        ValueModel::String(text) => seq![TokenModel::String(text)],
        ValueModel::Number(lit) => seq![TokenModel::Number(lit)],
    }
}

/// The token spelling of an object's entries, comma-separated.
pub open spec fn toks_of_entries(entries: Seq<(Seq<u8>, ValueModel)>) -> Seq<TokenModel>
    decreases entries,
{
    if entries.len() == 0 {
        Seq::empty()
    } else {
        let sep: Seq<TokenModel> = if entries.len() == 1 {
            Seq::empty()
        } else {
            seq![TokenModel::Comma]
        };
        seq![TokenModel::String(entries[0].0), TokenModel::Colon] + toks_of_value(entries[0].1)
            + sep + toks_of_entries(entries.subrange(1, entries.len() as int))
    }
}

/// The token spelling of an array's elements, comma-separated.
pub open spec fn toks_of_elems(elems: Seq<ValueModel>) -> Seq<TokenModel>
    decreases elems,
{
    if elems.len() == 0 {
        Seq::empty()
    } else {
        let sep: Seq<TokenModel> = if elems.len() == 1 {
            Seq::empty()
        } else {
            seq![TokenModel::Comma]
        };
        toks_of_value(elems[0]) + sep + toks_of_elems(elems.subrange(1, elems.len() as int))
    }
}

/// The token spelling of a document value.
pub open spec fn toks_of_root(root: RootModel) -> Seq<TokenModel> {
    toks_of_value(root_to_value(root))
}

/// The document value a top-level container value stands for.
pub open spec fn root_of(v: ValueModel) -> RootModel {
    match v {
        ValueModel::Object(entries) => RootModel::Object(entries),
        ValueModel::Array(elems) => RootModel::Array(elems),
        _ => RootModel::Array(Seq::empty()),
    }
}

/// Every token spelling is nonempty.
pub proof fn lemma_toks_of_value_len(v: ValueModel)
    ensures
        toks_of_value(v).len() >= 1,
        (v is Object || v is Array) ==> toks_of_value(v).len() >= 2,
{
}

/// The object loop consumes the spelled entries and stops before the
/// closing brace, appending each pair to what it has: on unique keys,
/// storing is appending.
proof fn lemma_object_items_complete(
    toks: Seq<TokenModel>,
    c: int,
    done: Seq<(Seq<u8>, ValueModel)>,
    todo: Seq<(Seq<u8>, ValueModel)>,
)
    requires
        0 <= c,
        todo.len() > 0,
        entries_wf(done + todo),
        entry_values_wf(todo),
        c + 1 + toks_of_entries(todo).len() < toks.len(),
        toks.subrange(c + 1, c + 1 + toks_of_entries(todo).len()) == toks_of_entries(todo),
        tok_at(toks, c + 1 + toks_of_entries(todo).len()) is RightBrace,
    ensures
        sp_object_items(toks, c, done) == Ok::<(Seq<(Seq<u8>, ValueModel)>, int), ErrorModel>(
            (done + todo, c + toks_of_entries(todo).len()),
        ),
    decreases todo, 0int,
{
    let kt = toks_of_entries(todo);
    let kl = kt.len() as int;
    let key = todo[0].0;
    let val = todo[0].1;
    let vt = toks_of_value(val);
    let vl = vt.len() as int;
    let rest = todo.subrange(1, todo.len() as int);
    let sep: Seq<TokenModel> = if todo.len() == 1 {
        Seq::empty()
    } else {
        seq![TokenModel::Comma]
    };
    assert(kt == seq![TokenModel::String(key), TokenModel::Colon] + vt + sep + toks_of_entries(
        rest,
    ));
    assert(entry_values_wf(rest) && value_wf(val)) by {
        assert(todo.subrange(1, todo.len() as int) == rest);
    }
    // the tokens of the first pair
    assert(tok_at(toks, c + 1) == TokenModel::String(key)) by {
        assert(toks.subrange(c + 1, c + 1 + kl)[0] == kt[0]);
    }
    assert(tok_at(toks, c + 2) == TokenModel::Colon) by {
        assert(toks.subrange(c + 1, c + 1 + kl)[1] == kt[1]);
    }
    assert(toks.subrange(c + 3, c + 3 + vl) =~= vt) by {
        assert forall|i: int| 0 <= i < vl implies toks.subrange(c + 3, c + 3 + vl)[i] == vt[i] by {
            assert(toks.subrange(c + 1, c + 1 + kl)[i + 2] == kt[i + 2]);
            assert(kt[i + 2] == vt[i]);
        }
    }
    lemma_value_complete(toks, c + 2, val);
    let c1 = c + 2 + vl;
    assert(sp_kvp(toks, c) == Ok::<(Seq<u8>, ValueModel, int), ErrorModel>((key, val, c1)));
    assert(step(toks, c, c1) == c1);
    // the key is fresh among what is done, so storing appends
    assert forall|i: int| 0 <= i < done.len() implies (#[trigger] done[i]).0 != key by {
        assert((done + todo)[i] == done[i]);
        assert((done + todo)[done.len() as int] == todo[0]);
        assert((done + todo)[i].0 != (done + todo)[done.len() as int].0);
    }
    lemma_upsert_entry_absent(done, key, val);
    let acc2 = done.push((key, val));
    assert(acc2 =~= done + seq![todo[0]]);
    if todo.len() == 1 {
        assert(toks_of_entries(rest) == Seq::<TokenModel>::empty());
        assert(kl == 2 + vl);
        assert(tok_at(toks, c1 + 1) is RightBrace);
        assert(done + todo =~= acc2);
        assert(sp_object_items(toks, c, done) == Ok::<
            (Seq<(Seq<u8>, ValueModel)>, int),
            ErrorModel,
        >((acc2, c1)));
    } else {
        // a comma stands after the pair, and the remaining entries follow
        let rt = toks_of_entries(rest);
        let rl = rt.len() as int;
        assert(kl == 2 + vl + 1 + rl);
        assert(tok_at(toks, c1 + 1) == TokenModel::Comma) by {
            assert(toks.subrange(c + 1, c + 1 + kl)[2 + vl] == kt[2 + vl]);
            assert(kt[2 + vl] == TokenModel::Comma);
        }
        let c_next = c1 + 1;
        assert(toks.subrange(c_next + 1, c_next + 1 + rl) =~= rt) by {
            assert forall|i: int|
                0 <= i < rl implies toks.subrange(c_next + 1, c_next + 1 + rl)[i] == rt[i] by {
                assert(toks.subrange(c + 1, c + 1 + kl)[3 + vl + i] == kt[3 + vl + i]);
                assert(kt[3 + vl + i] == rt[i]);
            }
        }
        assert((done + todo) =~= (acc2 + rest));
        assert(entries_wf(acc2 + rest));
        assert(tok_at(toks, c_next + 1 + rl) is RightBrace);
        lemma_object_items_complete(toks, c_next, acc2, rest);
        assert(sp_object_items(toks, c_next, acc2) == Ok::<
            (Seq<(Seq<u8>, ValueModel)>, int),
            ErrorModel,
        >((acc2 + rest, c_next + rl)));
        assert(c_next + rl == c + kl);
    }
}

/// The array loop consumes the spelled elements and stops before the
/// closing bracket.
proof fn lemma_array_items_complete(
    toks: Seq<TokenModel>,
    c: int,
    done: Seq<ValueModel>,
    todo: Seq<ValueModel>,
)
    requires
        0 <= c,
        todo.len() > 0,
        values_wf(todo),
        c + 1 + toks_of_elems(todo).len() < toks.len(),
        toks.subrange(c + 1, c + 1 + toks_of_elems(todo).len()) == toks_of_elems(todo),
        tok_at(toks, c + 1 + toks_of_elems(todo).len()) is RightBracket,
    ensures
        sp_array_items(toks, c, done) == Ok::<(Seq<ValueModel>, int), ErrorModel>(
            (done + todo, c + toks_of_elems(todo).len()),
        ),
    decreases todo, 0int,
{
    let kt = toks_of_elems(todo);
    let kl = kt.len() as int;
    let val = todo[0];
    let vt = toks_of_value(val);
    let vl = vt.len() as int;
    let rest = todo.subrange(1, todo.len() as int);
    assert(values_wf(rest) && value_wf(val)) by {
        assert(todo.subrange(1, todo.len() as int) == rest);
    }
    assert(toks.subrange(c + 1, c + 1 + vl) =~= vt) by {
        assert forall|i: int| 0 <= i < vl implies toks.subrange(c + 1, c + 1 + vl)[i] == vt[i] by {
            assert(toks.subrange(c + 1, c + 1 + kl)[i] == kt[i]);
            assert(kt[i] == vt[i]);
        }
    }
    lemma_value_complete(toks, c, val);
    let c1 = c + vl;
    assert(sp_value(toks, c) == Ok::<(ValueModel, int), ErrorModel>((val, c1)));
    assert(step(toks, c, c1) == c1);
    let acc2 = done.push(val);
    if todo.len() == 1 {
        assert(toks_of_elems(rest) == Seq::<TokenModel>::empty());
        assert(kt =~= vt);
        assert(kl == vl);
        assert(tok_at(toks, c1 + 1) is RightBracket);
        assert(done + todo =~= acc2);
    } else {
        let rt = toks_of_elems(rest);
        let rl = rt.len() as int;
        assert(kl == vl + 1 + rl);
        assert(tok_at(toks, c1 + 1) == TokenModel::Comma) by {
            assert(toks.subrange(c + 1, c + 1 + kl)[vl] == kt[vl]);
            assert(kt[vl] == TokenModel::Comma);
        }
        let c_next = c1 + 1;
        assert(toks.subrange(c_next + 1, c_next + 1 + rl) =~= rt) by {
            assert forall|i: int|
                0 <= i < rl implies toks.subrange(c_next + 1, c_next + 1 + rl)[i] == rt[i] by {
                assert(toks.subrange(c + 1, c + 1 + kl)[vl + 1 + i] == kt[vl + 1 + i]);
                assert(kt[vl + 1 + i] == rt[i]);
            }
        }
        assert((done + todo) =~= (acc2 + rest));
        assert(tok_at(toks, c_next + 1 + rl) is RightBracket);
        lemma_array_items_complete(toks, c_next, acc2, rest);
        assert(c_next + rl == c + kl);
    }
}

/// Parsing the token spelling of a container value yields that value,
/// with the cursor standing just before its closing token.
proof fn lemma_parse_complete(toks: Seq<TokenModel>, c: int, v: ValueModel)
    requires
        0 <= c,
        v is Object || v is Array,
        value_wf(v),
        c + toks_of_value(v).len() <= toks.len(),
        toks.subrange(c, c + toks_of_value(v).len()) == toks_of_value(v),
    ensures
        sp_parse(toks, c) == Ok::<(RootModel, int), ErrorModel>(
            (root_of(v), c + toks_of_value(v).len() - 2),
        ),
    decreases v, 0int,
{
    let vt = toks_of_value(v);
    let vl = vt.len() as int;
    match v {
        ValueModel::Object(entries) => {
            let et = toks_of_entries(entries);
            let el = et.len() as int;
            assert(vl == el + 2);
            assert(tok_at(toks, c) == TokenModel::LeftBrace) by {
                assert(toks.subrange(c, c + vl)[0] == vt[0]);
            }
            assert(tok_at(toks, c + 1 + el) == TokenModel::RightBrace) by {
                assert(toks.subrange(c, c + vl)[vl - 1] == vt[vl - 1]);
            }
            if entries.len() == 0 {
                assert(tok_at(toks, c + 1) is RightBrace);
                assert(sp_object(toks, c) == Ok::<
                    (Seq<(Seq<u8>, ValueModel)>, int),
                    ErrorModel,
                >((Seq::empty(), c)));
                assert(Seq::<(Seq<u8>, ValueModel)>::empty() =~= entries);
            } else {
                assert(toks.subrange(c + 1, c + 1 + el) =~= et) by {
                    assert forall|i: int|
                        0 <= i < el implies toks.subrange(c + 1, c + 1 + el)[i] == et[i] by {
                        assert(toks.subrange(c, c + vl)[i + 1] == vt[i + 1]);
                        assert(vt[i + 1] == et[i]);
                    }
                }
                assert(tok_at(toks, c + 1) == TokenModel::String(entries[0].0)) by {
                    lemma_toks_of_value_len(entries[0].1);
                    assert(et[0] == TokenModel::String(entries[0].0));
                    assert(toks.subrange(c + 1, c + 1 + el)[0] == et[0]);
                }
                assert(Seq::<(Seq<u8>, ValueModel)>::empty() + entries =~= entries);
                lemma_object_items_complete(toks, c, Seq::empty(), entries);
            }
        },
        ValueModel::Array(elems) => {
            let et = toks_of_elems(elems);
            let el = et.len() as int;
            assert(vl == el + 2);
            assert(tok_at(toks, c) == TokenModel::LeftBracket) by {
                assert(toks.subrange(c, c + vl)[0] == vt[0]);
            }
            assert(tok_at(toks, c + 1 + el) == TokenModel::RightBracket) by {
                assert(toks.subrange(c, c + vl)[vl - 1] == vt[vl - 1]);
            }
            if elems.len() == 0 {
                assert(tok_at(toks, c + 1) is RightBracket);
                assert(Seq::<ValueModel>::empty() =~= elems);
            } else {
                assert(toks.subrange(c + 1, c + 1 + el) =~= et) by {
                    assert forall|i: int|
                        0 <= i < el implies toks.subrange(c + 1, c + 1 + el)[i] == et[i] by {
                        assert(toks.subrange(c, c + vl)[i + 1] == vt[i + 1]);
                        assert(vt[i + 1] == et[i]);
                    }
                }
                assert(!(tok_at(toks, c + 1) is RightBracket)) by {
                    lemma_toks_of_value_len(elems[0]);
                    assert(et[0] == toks_of_value(elems[0])[0]);
                    assert(toks.subrange(c + 1, c + 1 + el)[0] == et[0]);
                }
                assert(Seq::<ValueModel>::empty() + elems =~= elems);
                lemma_array_items_complete(toks, c, Seq::empty(), elems);
            }
        },
        _ => {},
    }
}

/// Parsing the token spelling of a value, one step into the lookahead,
/// yields that value with the cursor on its last token.
proof fn lemma_value_complete(toks: Seq<TokenModel>, c: int, v: ValueModel)
    requires
        0 <= c,
        value_wf(v),
        c + 1 + toks_of_value(v).len() <= toks.len(),
        toks.subrange(c + 1, c + 1 + toks_of_value(v).len()) == toks_of_value(v),
    ensures
        sp_value(toks, c) == Ok::<(ValueModel, int), ErrorModel>(
            (v, c + toks_of_value(v).len()),
        ),
    decreases v, 1int,
{
    let vt = toks_of_value(v);
    let vl = vt.len() as int;
    assert(tok_at(toks, c + 1) == vt[0]) by {
        lemma_toks_of_value_len(v);
        assert(toks.subrange(c + 1, c + 1 + vl)[0] == vt[0]);
    }
    match v {
        ValueModel::Object(_) => {
            lemma_parse_complete(toks, c + 1, v);
        },
        ValueModel::Array(_) => {
            lemma_parse_complete(toks, c + 1, v);
        },
        _ => {},
    }
}

/// The round trip: the token spelling of any well-formed document value,
/// ending at its closing token, parses back to exactly that value; the
/// cursor stops just before the closing token, so a document spelled
/// with nothing after it is accepted whole. Whatever tokens follow the
/// spelling, the parsed value is the same.
pub proof fn lemma_tokens_round_trip(root: RootModel, tail: Seq<TokenModel>)
    requires
        root_wf(root),
    ensures
        sp_parse(toks_of_root(root) + tail, 0) == Ok::<(RootModel, int), ErrorModel>(
            (root, toks_of_root(root).len() - 2),
        ),
{
    let v = root_to_value(root);
    let toks = toks_of_root(root) + tail;
    assert(value_wf(v) && (v is Object || v is Array) && root_of(v) == root) by {
        match root {
            RootModel::Object(_) => {},
            RootModel::Array(_) => {},
        }
    }
    assert(toks.subrange(0, toks_of_value(v).len() as int) =~= toks_of_value(v));
    lemma_parse_complete(toks, 0, v);
}

// ---------------------------------------------------------------------------
// The byte spelling of tokens and values
// ---------------------------------------------------------------------------

/// The byte spelling of one token: what the scanner reads back as that
/// token.
pub open spec fn spell(t: TokenModel) -> Seq<u8> {
    match t {
        TokenModel::String(text) => seq![34u8] + text + seq![34u8],
        TokenModel::Number(lit) => lit,
        TokenModel::True => true_lit(),
        TokenModel::False => false_lit(),
        TokenModel::Null => null_lit(),
        TokenModel::Colon => seq![58u8],
        TokenModel::Comma => seq![44u8],
        TokenModel::LeftBrace => seq![123u8],
        TokenModel::RightBrace => seq![125u8],
        TokenModel::LeftBracket => seq![91u8],
        TokenModel::RightBracket => seq![93u8],
        _ => Seq::empty(),
    }
}

/// Whether a token has a spelling the scanner reads back: every token
/// but the two markers, with a well-formed payload.
pub open spec fn spell_ok(t: TokenModel) -> bool {
    match t {
        TokenModel::String(text) => str_body_ok(text),
        TokenModel::Number(lit) => is_number_lit(lit),
        TokenModel::Illegal(_) => false,
        TokenModel::EndOfInput => false,
        _ => true,
    }
}

/// A token whose spelling ends in a digit or letter, so that a digit,
/// dot or letter directly after it would extend its scan.
pub open spec fn runs_on(t: TokenModel) -> bool {
    t is Number || t is True || t is False || t is Null
}

/// A byte that cannot extend a numeric or keyword scan.
pub open spec fn is_break_byte(b: u8) -> bool {
    !(is_digit_byte(b) || b == 46 || is_alpha_byte(b))
}

/// Nothing but whitespace.
pub open spec fn all_ws(u: Seq<u8>) -> bool {
    forall|j: int| 0 <= j < u.len() ==> is_ws_byte(#[trigger] u[j])
}

/// The text of a token sequence as it stood in a source document: each
/// token's spelling, with the whitespace that preceded that token;
/// `gaps[k]` is the whitespace before `ts[k]`.
pub open spec fn spaced_text(ts: Seq<TokenModel>, gaps: Seq<Seq<u8>>) -> Seq<u8>
    decreases ts,
{
    if ts.len() == 0 {
        Seq::empty()
    } else {
        gaps[0] + spell(ts[0]) + spaced_text(
            ts.subrange(1, ts.len() as int),
            gaps.subrange(1, gaps.len() as int),
        )
    }
}

/// Whitespace-only gaps, one before each token.
pub open spec fn ws_gaps(gaps: Seq<Seq<u8>>) -> bool {
    forall|k: int| 0 <= k < gaps.len() ==> all_ws(#[trigger] gaps[k])
}

/// A token sequence the scanner reads back as itself: every token is
/// spellable, and no token that ends in a digit or letter is followed by
/// one that starts with one.
pub open spec fn tokens_ok(ts: Seq<TokenModel>) -> bool {
    &&& forall|i: int| 0 <= i < ts.len() ==> spell_ok(#[trigger] ts[i])
    &&& forall|i: int|
        0 <= i && i + 1 < ts.len() && runs_on(#[trigger] ts[i]) ==> !runs_on(ts[i + 1])
            && !(ts[i + 1] is Number)
}

/// The first byte of a spelling: never whitespace, and for every token
/// that does not itself run on, a byte that breaks a running scan.
proof fn lemma_spell_first_byte(t: TokenModel)
    requires
        spell_ok(t),
    ensures
        spell(t).len() > 0,
        !is_ws_byte(spell(t)[0]),
        !runs_on(t) && !(t is Number) ==> is_break_byte(spell(t)[0]),
        t is Number ==> (is_digit_byte(spell(t)[0]) || spell(t)[0] == 45),
{
    match t {
        TokenModel::Number(lit) => {
            lemma_number_lit_bytes(lit);
        },
        _ => {},
    }
}

/// Scanning a spelled token from its first byte yields that token and
/// stops right after its spelling, provided the byte that follows breaks
/// a running scan whenever the token could run on.
proof fn lemma_next_token_spelled(s: Seq<u8>, i: int, t: TokenModel)
    requires
        spell_ok(t),
        0 <= i,
        i + spell(t).len() <= s.len(),
        s.subrange(i, i + spell(t).len()) == spell(t),
        runs_on(t) ==> i + spell(t).len() == s.len() || is_break_byte(s[i + spell(t).len()]),
    ensures
        spec_next_token(s, i) == (t, i + spell(t).len()),
{
    let st = spell(t);
    let sl = st.len() as int;
    let e = i + sl;
    lemma_spell_first_byte(t);
    assert(s[i] == st[0]) by {
        assert(s.subrange(i, e)[0] == st[0]);
    }
    assert(skip_ws_from(s, i) == i);
    assert(forall|j: int| i <= j < e ==> #[trigger] s[j] == st[j - i]) by {
        assert(forall|j: int| i <= j < e ==> s.subrange(i, e)[j - i] == #[trigger] s[j]);
    }
    match t {
        TokenModel::Number(lit) => {
            lemma_number_lit_bytes(lit);
            let run_start: int = if s[i] == 45 { i + 1 } else { i };
            lemma_num_run_to(s, run_start, e);
            assert(s.subrange(i, e) =~= lit);
        },
        TokenModel::String(text) => {
            assert(s[e - 1] == st[sl - 1]);
            assert(st[sl - 1] == 34);
            assert(s.subrange(i + 1, e - 1) =~= text);
            lemma_scan_body_spelled(s, i + 1, i + 1, e - 1);
            assert(scan_string(s, i) == (TokenModel::String(text), e));
        },
        TokenModel::True => {
            assert(is_alpha_byte(s[i]));
            assert(forall|j: int| i <= j < e ==> is_alnum_byte(#[trigger] s[j]));
            lemma_alnum_run_to(s, i, e);
            assert(s.subrange(i, e) =~= true_lit());
        },
        TokenModel::False => {
            assert(is_alpha_byte(s[i]));
            assert(forall|j: int| i <= j < e ==> is_alnum_byte(#[trigger] s[j]));
            lemma_alnum_run_to(s, i, e);
            assert(s.subrange(i, e) =~= false_lit());
        },
        TokenModel::Null => {
            assert(is_alpha_byte(s[i]));
            assert(forall|j: int| i <= j < e ==> is_alnum_byte(#[trigger] s[j]));
            lemma_alnum_run_to(s, i, e);
            assert(s.subrange(i, e) =~= null_lit());
        },
        _ => {},
    }
}

/// Scanning the text of a token sequence reads back exactly those
/// tokens and goes on scanning after them.
proof fn lemma_tokens_from_literal(s: Seq<u8>, i: int, ts: Seq<TokenModel>, gaps: Seq<Seq<u8>>)
    requires
        tokens_ok(ts),
        gaps.len() == ts.len(),
        ws_gaps(gaps),
        0 <= i,
        i + spaced_text(ts, gaps).len() <= s.len(),
        s.subrange(i, i + spaced_text(ts, gaps).len()) == spaced_text(ts, gaps),
        ts.len() > 0 && runs_on(ts[ts.len() - 1]) ==> i + spaced_text(ts, gaps).len() == s.len()
            || is_break_byte(s[i + spaced_text(ts, gaps).len()]),
    ensures
        spec_tokens_from(s, i) == ts + spec_tokens_from(s, i + spaced_text(ts, gaps).len()),
    decreases ts.len(),
{
    let all = spaced_text(ts, gaps);
    let al = all.len() as int;
    if ts.len() == 0 {
        assert(spec_tokens_from(s, i) =~= ts + spec_tokens_from(s, i));
    } else {
        let head = ts[0];
        let g0 = gaps[0];
        let gl = g0.len() as int;
        let rest = ts.subrange(1, ts.len() as int);
        let rgaps = gaps.subrange(1, gaps.len() as int);
        let st = spell(head);
        let sl = st.len() as int;
        let rt = spaced_text(rest, rgaps);
        let rl = rt.len() as int;
        assert(all == g0 + st + rt);
        assert(forall|j: int| i <= j < i + al ==> #[trigger] s[j] == all[j - i]) by {
            assert(forall|j: int|
                i <= j < i + al ==> s.subrange(i, i + al)[j - i] == #[trigger] s[j]);
        }
        let q = i + gl;
        lemma_spell_first_byte(head);
        assert(s[q] == st[0]) by {
            assert(all[gl] == st[0]);
        }
        assert forall|j: int| i <= j < q implies is_ws_byte(#[trigger] s[j]) by {
            assert(all[j - i] == g0[j - i]);
            assert(is_ws_byte(g0[j - i]));
        }
        lemma_skip_ws_to(s, i, q);
        assert(s.subrange(q, q + sl) =~= st);
        // the byte after the head token breaks its scan if it needs one
        if runs_on(head) {
            if rest.len() > 0 {
                assert(rt == rgaps[0] + spell(rest[0]) + spaced_text(
                    rest.subrange(1, rest.len() as int),
                    rgaps.subrange(1, rgaps.len() as int),
                ));
                lemma_spell_first_byte(rest[0]);
                assert(rt.len() > 0);
                assert(s[q + sl] == all[gl + sl]);
                assert(all[gl + sl] == rt[0]);
                if rgaps[0].len() > 0 {
                    assert(rt[0] == rgaps[0][0]);
                    assert(is_ws_byte(rt[0]));
                } else {
                    assert(rt[0] == spell(rest[0])[0]);
                    assert(!runs_on(rest[0]) && !(rest[0] is Number)) by {
                        assert(ts[1int] == rest[0]);
                    }
                }
            } else {
                assert(rt =~= Seq::<u8>::empty());
                assert(al == gl + sl);
            }
        }
        lemma_next_token_spelled(s, q, head);
        assert(skip_ws_from(s, q) == q);
        assert(spec_next_token(s, i) == (head, q + sl));
        assert(s.subrange(q + sl, i + al) =~= rt);
        if rest.len() > 0 {
            assert(rest[rest.len() - 1] == ts[ts.len() - 1]);
        }
        lemma_tokens_from_literal(s, q + sl, rest, rgaps);
        assert(spec_tokens_from(s, i) == seq![head] + spec_tokens_from(s, q + sl));
        assert(spec_tokens_from(s, i) =~= ts + spec_tokens_from(s, i + al));
    }
}

// ---------------------------------------------------------------------------
// Document texts round-trip through the whole pipeline
// ---------------------------------------------------------------------------

/// Every piece of text in the value can be spelled in a document: string
/// bodies and keys carry no unescaped quote and only recognized escapes,
/// numeric literals match the numeric grammar.
pub open spec fn value_text_wf(v: ValueModel) -> bool
    decreases v,
{
    match v {
        ValueModel::Object(entries) => entry_texts_wf(entries),
        ValueModel::Array(elems) => elem_texts_wf(elems),
        ValueModel::Boolean(_) => true,
        ValueModel::Null => true,
        ValueModel::String(text) => str_body_ok(text),
        ValueModel::Number(lit) => is_number_lit(lit),
    }
}

/// Keys and values of every entry can be spelled.
pub open spec fn entry_texts_wf(entries: Seq<(Seq<u8>, ValueModel)>) -> bool
    decreases entries,
{
    if entries.len() == 0 {
        true
    } else {
        str_body_ok(entries[0].0) && value_text_wf(entries[0].1) && entry_texts_wf(
            entries.subrange(1, entries.len() as int),
        )
    }
}

/// Every element can be spelled.
pub open spec fn elem_texts_wf(elems: Seq<ValueModel>) -> bool
    decreases elems,
{
    if elems.len() == 0 {
        true
    } else {
        value_text_wf(elems[0]) && elem_texts_wf(elems.subrange(1, elems.len() as int))
    }
}

/// A document value whose texts can all be spelled.
pub open spec fn root_text_wf(root: RootModel) -> bool {
    value_text_wf(root_to_value(root))
}

/// Concatenating scannable token sequences keeps them scannable when the
/// junction is safe.
proof fn lemma_tokens_ok_concat(a: Seq<TokenModel>, b: Seq<TokenModel>)
    requires
        tokens_ok(a),
        tokens_ok(b),
        a.len() > 0 && b.len() > 0 && runs_on(a[a.len() - 1]) ==> !runs_on(b[0]) && !(b[0]
            is Number),
    ensures
        tokens_ok(a + b),
{
    let c = a + b;
    assert forall|i: int| 0 <= i < c.len() implies spell_ok(#[trigger] c[i]) by {
        if i < a.len() {
            assert(c[i] == a[i]);
        } else {
            assert(c[i] == b[i - a.len()]);
        }
    }
    assert forall|i: int|
        0 <= i && i + 1 < c.len() && runs_on(#[trigger] c[i]) implies !runs_on(c[i + 1]) && !(c[i
        + 1] is Number) by {
        if i + 1 < a.len() {
            assert(c[i] == a[i] && c[i + 1] == a[i + 1]);
        } else if i + 1 == a.len() {
            assert(c[i] == a[i] && c[i + 1] == b[0]);
        } else {
            assert(c[i] == b[i - a.len()] && c[i + 1] == b[i + 1 - a.len()]);
        }
    }
}

/// A single spellable token is a scannable sequence.
proof fn lemma_tokens_ok_single(t: TokenModel)
    requires
        spell_ok(t),
    ensures
        tokens_ok(seq![t]),
{
}

/// The token spelling of a text-wf value is scannable.
proof fn lemma_value_tokens_ok(v: ValueModel)
    requires
        value_text_wf(v),
    ensures
        tokens_ok(toks_of_value(v)),
    decreases v, 1int,
{
    match v {
        ValueModel::Object(entries) => {
            lemma_entries_tokens_ok(entries);
            lemma_tokens_ok_single(TokenModel::LeftBrace);
            lemma_tokens_ok_single(TokenModel::RightBrace);
            lemma_tokens_ok_concat(seq![TokenModel::LeftBrace], toks_of_entries(entries));
            lemma_tokens_ok_concat(
                seq![TokenModel::LeftBrace] + toks_of_entries(entries),
                seq![TokenModel::RightBrace],
            );
        },
        ValueModel::Array(elems) => {
            lemma_elems_tokens_ok(elems);
            lemma_tokens_ok_single(TokenModel::LeftBracket);
            lemma_tokens_ok_single(TokenModel::RightBracket);
            lemma_tokens_ok_concat(seq![TokenModel::LeftBracket], toks_of_elems(elems));
            lemma_tokens_ok_concat(
                seq![TokenModel::LeftBracket] + toks_of_elems(elems),
                seq![TokenModel::RightBracket],
            );
        },
        _ => {},
    }
}

/// The token spelling of text-wf entries is scannable.
proof fn lemma_entries_tokens_ok(entries: Seq<(Seq<u8>, ValueModel)>)
    requires
        entry_texts_wf(entries),
    ensures
        tokens_ok(toks_of_entries(entries)),
    decreases entries, 0int,
{
    if entries.len() > 0 {
        let key = entries[0].0;
        let val = entries[0].1;
        let rest = entries.subrange(1, entries.len() as int);
        let sep: Seq<TokenModel> = if entries.len() == 1 {
            Seq::empty()
        } else {
            seq![TokenModel::Comma]
        };
        lemma_value_tokens_ok(val);
        lemma_entries_tokens_ok(rest);
        let head = seq![TokenModel::String(key), TokenModel::Colon];
        assert(tokens_ok(head));
        assert(tokens_ok(sep));
        lemma_tokens_ok_concat(head, toks_of_value(val));
        lemma_tokens_ok_concat(head + toks_of_value(val), sep);
        lemma_tokens_ok_concat(head + toks_of_value(val) + sep, toks_of_entries(rest));
    }
}

/// The token spelling of text-wf elements is scannable.
proof fn lemma_elems_tokens_ok(elems: Seq<ValueModel>)
    requires
        elem_texts_wf(elems),
    ensures
        tokens_ok(toks_of_elems(elems)),
    decreases elems, 0int,
{
    if elems.len() > 0 {
        let val = elems[0];
        let rest = elems.subrange(1, elems.len() as int);
        let sep: Seq<TokenModel> = if elems.len() == 1 {
            Seq::empty()
        } else {
            seq![TokenModel::Comma]
        };
        lemma_value_tokens_ok(val);
        lemma_elems_tokens_ok(rest);
        lemma_tokens_ok_concat(toks_of_value(val), sep);
        lemma_tokens_ok_concat(toks_of_value(val) + sep, toks_of_elems(rest));
    }
}

/// A document literal of a value: the value's tokens in order, with any
/// whitespace before each token. Since string and number tokens carry
/// their exact source bytes, every source literal of the value is of
/// this shape for some choice of gaps.
pub open spec fn literal_text(root: RootModel, gaps: Seq<Seq<u8>>) -> Seq<u8> {
    spaced_text(toks_of_root(root), gaps)
}

/// The closing token of a container value's spelling never runs on.
proof fn lemma_toks_of_value_last(v: ValueModel)
    requires
        v is Object || v is Array,
    ensures
        toks_of_value(v).len() >= 2,
        !runs_on(toks_of_value(v)[toks_of_value(v).len() - 1]),
{
    let ts = toks_of_value(v);
    match v {
        ValueModel::Object(entries) => {
            assert(ts[ts.len() - 1] == TokenModel::RightBrace);
        },
        ValueModel::Array(elems) => {
            assert(ts[ts.len() - 1] == TokenModel::RightBracket);
        },
        _ => {},
    }
}

/// Round trip of a whole document text: every literal of a well-formed
/// document value, followed by nothing but whitespace, parses to exactly
/// that value.
pub proof fn lemma_document_round_trip(root: RootModel, gaps: Seq<Seq<u8>>, ws: Seq<u8>)
    requires
        root_wf(root),
        root_text_wf(root),
        gaps.len() == toks_of_root(root).len(),
        ws_gaps(gaps),
        all_ws(ws),
    ensures
        spec_parse_document(literal_text(root, gaps) + ws) == Ok::<RootModel, ErrorModel>(root),
{
    let v = root_to_value(root);
    let ts = toks_of_value(v);
    let text = spaced_text(ts, gaps);
    let s = text + ws;
    let tl = text.len() as int;
    assert(value_text_wf(v) && (v is Object || v is Array)) by {
        match root {
            RootModel::Object(_) => {},
            RootModel::Array(_) => {},
        }
    }
    lemma_value_tokens_ok(v);
    lemma_toks_of_value_last(v);
    assert(s.subrange(0, tl) =~= text);
    lemma_tokens_from_literal(s, 0, ts, gaps);
    assert(forall|j: int| tl <= j < s.len() ==> is_ws_byte(#[trigger] s[j]));
    lemma_skip_ws_to(s, tl, s.len() as int);
    assert(spec_next_token(s, tl).0 is EndOfInput);
    assert(spec_tokens_from(s, tl) =~= Seq::<TokenModel>::empty());
    assert(spec_tokens_from(s, 0) =~= ts);
    lemma_tokens_round_trip(root, Seq::empty());
    assert(toks_of_root(root) + Seq::<TokenModel>::empty() =~= ts);
    lemma_toks_of_value_len(v);
}

/// A stretch of input holding a non-whitespace byte scans to at least
/// one token.
proof fn lemma_tokens_remain(s: Seq<u8>, i: int, j: int)
    requires
        0 <= i <= j < s.len(),
        !is_ws_byte(s[j]),
    ensures
        spec_tokens_from(s, i).len() >= 1,
{
    lemma_skip_ws_stops_at(s, i, j);
    lemma_next_token_progress(s, i);
    if spec_next_token(s, i).0 is EndOfInput {
        assert(spec_next_token(s, i).1 == skip_ws_from(s, i));
        assert(spec_next_token(s, i).1 <= j);
        assert(false);
    }
}

/// Any non-whitespace suffix after a complete document text makes the
/// whole input trailing input.
#[verifier::rlimit(60)]
pub proof fn lemma_document_trailing_input(
    root: RootModel,
    gaps: Seq<Seq<u8>>,
    ws: Seq<u8>,
    u: Seq<u8>,
)
    requires
        root_wf(root),
        root_text_wf(root),
        gaps.len() == toks_of_root(root).len(),
        ws_gaps(gaps),
        all_ws(ws),
        exists|j: int| 0 <= j < u.len() && !is_ws_byte(#[trigger] u[j]),
    ensures
        spec_parse_document(literal_text(root, gaps) + ws + u) == Err::<RootModel, ErrorModel>(
            ErrorModel::TrailingInput,
        ),
{
    let v = root_to_value(root);
    let ts = toks_of_value(v);
    let text = spaced_text(ts, gaps);
    let s = literal_text(root, gaps) + ws + u;
    let tl = text.len() as int;
    assert(value_text_wf(v) && (v is Object || v is Array)) by {
        match root {
            RootModel::Object(_) => {},
            RootModel::Array(_) => {},
        }
    }
    lemma_value_tokens_ok(v);
    lemma_toks_of_value_last(v);
    assert(s.subrange(0, tl) =~= text);
    lemma_tokens_from_literal(s, 0, ts, gaps);
    // at least one more token comes out of the suffix
    let j0 = choose|j: int| 0 <= j < u.len() && !is_ws_byte(#[trigger] u[j]);
    let p0 = tl + ws.len() as int + j0;
    assert(s[p0] == u[j0]);
    lemma_tokens_remain(s, tl, p0);
    let extra = spec_tokens_from(s, tl);
    assert(extra.len() >= 1);
    lemma_tokens_round_trip(root, extra);
    assert(toks_of_root(root) + extra == spec_tokens_from(s, 0));
    lemma_toks_of_value_len(v);
    assert(spec_tokens_from(s, 0).len() > ts.len() - 2 + 2);
}

} // verus!
