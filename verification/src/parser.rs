//! Recursive-descent parsing: turns the token sequence into a value tree.
//!
//! The grammar is specified by `parse_value_at` (and its list and object
//! companions), spec functions over the token sequence; the executable
//! `Parser` is verified to produce exactly what they say.

use vstd::prelude::*;
use vstd::string::StrSliceExecFns;
use vstd::string::StringExecFns;
use crate::lexer;
use crate::lexer::Token;
use crate::lexer::TokenModel;
use crate::lexer::tokens_view;

verus! {

broadcast use vstd::std_specs::vec::group_vec_axioms;

// ---------------------------------------------------------------------------
// Value model
// ---------------------------------------------------------------------------

/// Mathematical model of a parsed value. An object is the sequence of its
/// fields in insertion order, later writes to the same key replacing the
/// earlier value in place.
pub enum ValueModel {
    Object(Seq<(Seq<char>, ValueModel)>),
    List(Seq<ValueModel>),
    Boolean(bool),
    Null,
    Number(Seq<char>),
    String(Seq<char>),
}

/// A parsed value: one complete document or sub-document. `Number` holds
/// the numeric literal's text as lexed (already checked against the
/// decimal grammar); `Object` holds its fields in insertion order with
/// pairwise distinct keys.
#[derive(Debug, PartialEq)]
pub enum Value {
    Object(Vec<(String, Value)>),
    List(Vec<Value>),
    Boolean(bool),
    Null,
    Number(String),
    String(String),
}

/// The view of a list's elements, element by element.
pub open spec fn list_view(items: Seq<Value>) -> Seq<ValueModel>
    decreases items,
{
    Seq::new(
        items.len(),
        |i: int|
            if 0 <= i < items.len() {
                items[i].view()
            } else {
                ValueModel::Null
            },
    )
}

/// The view of an object's fields, pair by pair.
pub open spec fn fields_view(fields: Seq<(String, Value)>) -> Seq<(Seq<char>, ValueModel)>
    decreases fields,
{
    Seq::new(
        fields.len(),
        |i: int|
            if 0 <= i < fields.len() {
                (fields[i].0@, fields[i].1.view())
            } else {
                (Seq::empty(), ValueModel::Null)
            },
    )
}

impl View for Value {
    type V = ValueModel;

    open spec fn view(&self) -> ValueModel
        decreases self,
    {
        match self {
            Value::Object(fields) => ValueModel::Object(fields_view(fields@)),
            Value::List(items) => ValueModel::List(list_view(items@)),
            Value::Boolean(b) => ValueModel::Boolean(*b),
            Value::Null => ValueModel::Null,
            Value::Number(s) => ValueModel::Number(s@),
            Value::String(s) => ValueModel::String(s@),
        }
    }
}

// ---------------------------------------------------------------------------
// Parser and errors
// ---------------------------------------------------------------------------

/// Mathematical model of a parsing failure: either the lexer's diagnostic
/// or a grammar violation's message.
pub enum ParseErrorModel {
    LexError(lexer::ErrorModel),
    ParseError(Seq<char>),
}

/// A parsing failure: the lexer's diagnostic, or a grammar violation with
/// a descriptive message.
#[derive(Debug)]
pub enum Error {
    LexError(lexer::Error),
    ParseError(String),
}

impl View for Error {
    type V = ParseErrorModel;

    open spec fn view(&self) -> ParseErrorModel {
        match self {
            Error::LexError(e) => ParseErrorModel::LexError(e@),
            Error::ParseError(m) => ParseErrorModel::ParseError(m@),
        }
    }
}

impl From<lexer::Error> for Error {
    /// A lexer diagnostic converts to the corresponding parse failure.
    fn from(le: lexer::Error) -> (r: Self) {
        Error::LexError(le)
    }
}

impl vstd::std_specs::convert::FromSpecImpl<lexer::Error> for Error {
    open spec fn obeys_from_spec() -> bool {
        true
    }

    open spec fn from_spec(le: lexer::Error) -> Error {
        Error::LexError(le)
    }
}

// ---------------------------------------------------------------------------
// Grammar-violation messages
// ---------------------------------------------------------------------------

/// How a punctuation character is written in a message.
pub open spec fn punct_text(c: char) -> Seq<char> {
    if c == '(' {
        "("@
    } else if c == ')' {
        ")"@
    } else if c == '[' {
        "["@
    } else if c == ']' {
        "]"@
    } else if c == '{' {
        "{"@
    } else if c == '}' {
        "}"@
    } else if c == ':' {
        ":"@
    } else if c == ',' {
        ","@
    } else {
        "?"@
    }
}

/// How a token is named in a message: the literal's own text for strings
/// and numbers, the keyword for booleans and null, the character for
/// punctuation.
pub open spec fn token_name(t: TokenModel) -> Seq<char> {
    match t {
        TokenModel::String(s) => s,
        TokenModel::Number(x) => x,
        TokenModel::Bool(b) => if b {
            "true"@
        } else {
            "false"@
        },
        TokenModel::Null => "null"@,
        TokenModel::Punct(c) => punct_text(c),
    }
}

/// What a message calls the offending position: the token standing
/// there, or the end of the tokens.
pub open spec fn got_name(got: Option<TokenModel>) -> Seq<char> {
    match got {
        Some(t) => token_name(t),
        None => "end of input"@,
    }
}

/// Message for a token (or the end of the tokens) that no value starts
/// with, naming what stood there.
pub open spec fn msg_unexpected_token(got: Option<TokenModel>) -> Seq<char> {
    "unexpected token '"@ + got_name(got) + "'"@
}

/// Message for tokens that end inside an unclosed list or object. The
/// object case reuses the list's wording, as the message is not
/// key-specific.
pub open spec fn msg_end_of_input() -> Seq<char> {
    "unexpected end of input while parsing list"@
}

/// Message for an object key that is not a string.
pub open spec fn msg_invalid_key() -> Seq<char> {
    "invalid key value"@
}

/// Message for a missing `:` between an object key and its value,
/// naming what stood in its place.
pub open spec fn msg_expected_colon(got: Option<TokenModel>) -> Seq<char> {
    "expected ':', got '"@ + got_name(got) + "'"@
}

// ---------------------------------------------------------------------------
// The parser's specification
// ---------------------------------------------------------------------------

/// Inserts a field into an object's field sequence: a later write to an
/// existing key replaces that key's value in place (last write wins); a
/// new key is appended. Keeps keys pairwise distinct.
pub open spec fn insert_field(
    fields: Seq<(Seq<char>, ValueModel)>,
    k: Seq<char>,
    v: ValueModel,
) -> Seq<(Seq<char>, ValueModel)>
    decreases fields.len(),
{
    if fields.len() == 0 {
        seq![(k, v)]
    } else if fields[0].0 == k {
        seq![(k, v)] + fields.drop_first()
    } else {
        seq![fields[0]] + insert_field(fields.drop_first(), k, v)
    }
}

/// What parsing one value at token index `i` produces: the value and the
/// index just past it, or a grammar-violation message. Keyword, number
/// and string tokens map directly to values; `[` and `{` open a list or
/// an object.
pub open spec fn parse_value_at(toks: Seq<TokenModel>, i: int) -> Result<
    (ValueModel, int),
    Seq<char>,
>
    decreases toks.len() - i, 0int,
{
    if i < 0 || i >= toks.len() {
        Err(msg_unexpected_token(None))
    } else {
        match toks[i] {
            TokenModel::Null => Ok((ValueModel::Null, i + 1)),
            TokenModel::Bool(b) => Ok((ValueModel::Boolean(b), i + 1)),
            TokenModel::Number(t) => Ok((ValueModel::Number(t), i + 1)),
            TokenModel::String(t) => Ok((ValueModel::String(t), i + 1)),
            TokenModel::Punct(c) => {
                if c == '[' {
                    parse_list_from(toks, i + 1, seq![])
                } else if c == '{' {
                    parse_object_from(toks, i + 1, Seq::empty())
                } else {
                    Err(msg_unexpected_token(Some(toks[i])))
                }
            },
        }
    }
}

/// Parses list elements from token index `i`, `acc` holding the elements
/// already parsed. At each round a `]` closes the list; otherwise an
/// element is parsed, and after it a `,` continues, a `]` closes, the end
/// of the tokens is an error, and any other token is left for the next
/// round to re-examine (a missing separator is not rejected at the
/// separator's position).
pub open spec fn parse_list_from(toks: Seq<TokenModel>, i: int, acc: Seq<ValueModel>) -> Result<
    (ValueModel, int),
    Seq<char>,
>
    decreases toks.len() - i, 1int,
{
    if 0 <= i < toks.len() && toks[i] == TokenModel::Punct(']') {
        Ok((ValueModel::List(acc), i + 1))
    } else {
        match parse_value_at(toks, i) {
            Err(m) => Err(m),
            Ok((v, j)) => {
                if j <= i {
                    Err(msg_unexpected_token(None))
                } else if j >= toks.len() {
                    Err(msg_end_of_input())
                } else if toks[j] == TokenModel::Punct(',') {
                    parse_list_from(toks, j + 1, acc.push(v))
                } else if toks[j] == TokenModel::Punct(']') {
                    Ok((ValueModel::List(acc.push(v)), j + 1))
                } else {
                    parse_list_from(toks, j, acc.push(v))
                }
            },
        }
    }
}

/// Parses object members from token index `i`, `acc` holding the fields
/// already parsed. At each round a `}` closes the object; otherwise a
/// value is parsed and must be a string key, a `:` must follow, and the
/// member's value is parsed and inserted (last write wins). After the
/// member a `,` continues, a `}` closes, the end of the tokens is an
/// error, and any other token is left for the next round to re-examine.
pub open spec fn parse_object_from(
    toks: Seq<TokenModel>,
    i: int,
    acc: Seq<(Seq<char>, ValueModel)>,
) -> Result<(ValueModel, int), Seq<char>>
    decreases toks.len() - i, 1int,
{
    if 0 <= i < toks.len() && toks[i] == TokenModel::Punct('}') {
        Ok((ValueModel::Object(acc), i + 1))
    } else {
        match parse_value_at(toks, i) {
            Err(m) => Err(m),
            Ok((kv, j)) => {
                if j <= i {
                    Err(msg_unexpected_token(None))
                } else if !(kv is String) {
                    Err(msg_invalid_key())
                } else if j >= toks.len() {
                    Err(msg_expected_colon(None))
                } else if toks[j] != TokenModel::Punct(':') {
                    Err(msg_expected_colon(Some(toks[j])))
                } else {
                    match parse_value_at(toks, j + 1) {
                        Err(m) => Err(m),
                        Ok((v, j2)) => {
                            if j2 <= j {
                                Err(msg_unexpected_token(None))
                            } else {
                                let acc2 = insert_field(acc, kv->String_0, v);
                                if j2 >= toks.len() {
                                    Err(msg_end_of_input())
                                } else if toks[j2] == TokenModel::Punct(',') {
                                    parse_object_from(toks, j2 + 1, acc2)
                                } else if toks[j2] == TokenModel::Punct('}') {
                                    Ok((ValueModel::Object(acc2), j2 + 1))
                                } else {
                                    parse_object_from(toks, j2, acc2)
                                }
                            }
                        },
                    }
                }
            },
        }
    }
}

/// What parsing the whole input text produces: `Ok(None)` when the input
/// lexes to no tokens at all (empty or all whitespace), otherwise exactly
/// one top-level value; tokens after it are ignored. A lexer diagnostic
/// or a grammar violation is returned as the corresponding error.
pub open spec fn parse_text(s: Seq<char>) -> Result<Option<ValueModel>, ParseErrorModel> {
    match lexer::lex_from(s, 0, 0, 0, 0) {
        Err(e) => Err(ParseErrorModel::LexError(e)),
        Ok(toks) => if toks.len() == 0 {
            Ok(None)
        } else {
            match parse_value_at(toks, 0) {
                Ok((v, j)) => Ok(Some(v)),
                Err(m) => Err(ParseErrorModel::ParseError(m)),
            }
        },
    }
}

// ---------------------------------------------------------------------------
// Laws
// ---------------------------------------------------------------------------

/// Every object in the value's tree is a genuine mapping: its keys are
/// pairwise distinct, and the values under them are well-formed too.
pub open spec fn object_keys_distinct(v: ValueModel) -> bool
    decreases v, 1int,
{
    match v {
        ValueModel::Object(fields) => model_fields_wf(fields),
        ValueModel::List(items) => forall|k: int|
            0 <= k < items.len() ==> object_keys_distinct(#[trigger] items[k]),
        _ => true,
    }
}

/// An object's fields are well-formed: keys pairwise distinct, each
/// value's tree well-formed.
pub open spec fn model_fields_wf(fields: Seq<(Seq<char>, ValueModel)>) -> bool
    decreases fields, 0int,
{
    &&& forall|a: int, b: int|
        0 <= a < b < fields.len() ==> (#[trigger] fields[a]).0 != (#[trigger] fields[b]).0
    &&& forall|k: int| 0 <= k < fields.len() ==> object_keys_distinct((#[trigger] fields[k]).1)
}

/// Insertion never brings in a key other than the one inserted.
proof fn lemma_insert_field_no_new_key(
    fields: Seq<(Seq<char>, ValueModel)>,
    k: Seq<char>,
    v: ValueModel,
    x: Seq<char>,
)
    requires
        x != k,
        forall|i: int| 0 <= i < fields.len() ==> (#[trigger] fields[i]).0 != x,
    ensures
        forall|j: int|
            0 <= j < insert_field(fields, k, v).len() ==> (#[trigger] insert_field(fields, k, v)[j]).0
                != x,
    decreases fields.len(),
{
    if fields.len() != 0 && fields[0].0 != k {
        lemma_insert_field_no_new_key(fields.drop_first(), k, v, x);
        assert forall|j: int| 0 <= j < insert_field(fields, k, v).len() implies (#[trigger] insert_field(
            fields,
            k,
            v,
        )[j]).0 != x by {
            if j > 0 {
                assert(insert_field(fields, k, v)[j] == insert_field(fields.drop_first(), k, v)[j
                    - 1]);
            }
        }
    }
}

/// Insertion keeps an object's fields well-formed.
proof fn lemma_insert_field_wf(fields: Seq<(Seq<char>, ValueModel)>, k: Seq<char>, v: ValueModel)
    requires
        model_fields_wf(fields),
        object_keys_distinct(v),
    ensures
        model_fields_wf(insert_field(fields, k, v)),
    decreases fields.len(),
{
    let out = insert_field(fields, k, v);
    if fields.len() == 0 {
        assert(model_fields_wf(out));
    } else if fields[0].0 == k {
        assert forall|a: int, b: int| 0 <= a < b < out.len() implies (#[trigger] out[a]).0 != (
        #[trigger] out[b]).0 by {
            assert(out[b] == fields.drop_first()[b - 1]);
            assert(fields.drop_first()[b - 1] == fields[b]);
            if a > 0 {
                assert(out[a] == fields[a]);
            }
        }
        assert forall|j: int| 0 <= j < out.len() implies object_keys_distinct(
            (#[trigger] out[j]).1,
        ) by {
            if j > 0 {
                assert(out[j] == fields[j]);
            }
        }
    } else {
        let rest = fields.drop_first();
        assert forall|i: int| 0 <= i < rest.len() implies (#[trigger] rest[i]).0
            != fields[0].0 by {
            assert(rest[i] == fields[i + 1]);
        }
        assert(model_fields_wf(rest));
        lemma_insert_field_wf(rest, k, v);
        lemma_insert_field_no_new_key(rest, k, v, fields[0].0);
        let inner = insert_field(rest, k, v);
        assert forall|a: int, b: int| 0 <= a < b < out.len() implies (#[trigger] out[a]).0 != (
        #[trigger] out[b]).0 by {
            assert(out[b] == inner[b - 1]);
            if a > 0 {
                assert(out[a] == inner[a - 1]);
            }
        }
        assert forall|j: int| 0 <= j < out.len() implies object_keys_distinct(
            (#[trigger] out[j]).1,
        ) by {
            if j > 0 {
                assert(out[j] == inner[j - 1]);
            }
        }
    }
}

/// Every value that `parse_value_at` produces is well-formed.
proof fn lemma_parse_value_at_wf(toks: Seq<TokenModel>, i: int)
    ensures
        parse_value_at(toks, i) matches Ok(p) ==> object_keys_distinct(p.0),
    decreases toks.len() - i, 0int,
{
    if 0 <= i < toks.len() {
        match toks[i] {
            TokenModel::Punct(c) => {
                if c == '[' {
                    lemma_parse_list_from_wf(toks, i + 1, seq![]);
                } else if c == '{' {
                    lemma_parse_object_from_wf(toks, i + 1, Seq::empty());
                }
            },
            _ => {},
        }
    }
}

/// Every value that `parse_list_from` produces from well-formed elements
/// is well-formed.
proof fn lemma_parse_list_from_wf(toks: Seq<TokenModel>, i: int, acc: Seq<ValueModel>)
    requires
        forall|k: int| 0 <= k < acc.len() ==> object_keys_distinct(#[trigger] acc[k]),
    ensures
        parse_list_from(toks, i, acc) matches Ok(p) ==> object_keys_distinct(p.0),
    decreases toks.len() - i, 1int,
{
    if 0 <= i < toks.len() && toks[i] == TokenModel::Punct(']') {
    } else {
        match parse_value_at(toks, i) {
            Err(_) => {},
            Ok((v, j)) => {
                lemma_parse_value_at_wf(toks, i);
                let acc2 = acc.push(v);
                assert forall|k: int| 0 <= k < acc2.len() implies object_keys_distinct(
                    #[trigger] acc2[k],
                ) by {
                    if k < acc.len() {
                        assert(acc2[k] == acc[k]);
                    }
                }
                if j <= i {
                } else if j >= toks.len() {
                } else if toks[j] == TokenModel::Punct(',') {
                    lemma_parse_list_from_wf(toks, j + 1, acc2);
                } else if toks[j] == TokenModel::Punct(']') {
                } else {
                    lemma_parse_list_from_wf(toks, j, acc2);
                }
            },
        }
    }
}

/// Every value that `parse_object_from` produces from well-formed fields
/// is well-formed.
proof fn lemma_parse_object_from_wf(
    toks: Seq<TokenModel>,
    i: int,
    acc: Seq<(Seq<char>, ValueModel)>,
)
    requires
        model_fields_wf(acc),
    ensures
        parse_object_from(toks, i, acc) matches Ok(p) ==> object_keys_distinct(p.0),
    decreases toks.len() - i, 1int,
{
    if 0 <= i < toks.len() && toks[i] == TokenModel::Punct('}') {
    } else {
        match parse_value_at(toks, i) {
            Err(_) => {},
            Ok((kv, j)) => {
                if j <= i || !(kv is String) || j >= toks.len() || toks[j] != TokenModel::Punct(
                    ':',
                ) {
                } else {
                    match parse_value_at(toks, j + 1) {
                        Err(_) => {},
                        Ok((v, j2)) => {
                            if j2 <= j {
                            } else {
                                lemma_parse_value_at_wf(toks, j + 1);
                                lemma_insert_field_wf(acc, kv->String_0, v);
                                let acc2 = insert_field(acc, kv->String_0, v);
                                if j2 >= toks.len() {
                                } else if toks[j2] == TokenModel::Punct(',') {
                                    lemma_parse_object_from_wf(toks, j2 + 1, acc2);
                                } else if toks[j2] == TokenModel::Punct('}') {
                                } else {
                                    lemma_parse_object_from_wf(toks, j2, acc2);
                                }
                            }
                        },
                    }
                }
            },
        }
    }
}

/// Every object anywhere in a parsed value is a genuine mapping: its keys
/// are pairwise distinct, a repeated key in the source having replaced
/// the earlier member.
pub proof fn lemma_parsed_objects_have_distinct_keys(s: Seq<char>)
    ensures
        parse_text(s) matches Ok(ov) ==> (ov matches Some(v) ==> object_keys_distinct(v)),
{
    match lexer::lex_from(s, 0, 0, 0, 0) {
        Err(_) => {},
        Ok(toks) => {
            if toks.len() > 0 {
                lemma_parse_value_at_wf(toks, 0);
            }
        },
    }
}

/// Consuming whitespace produces no token: lexing an all-whitespace
/// suffix from any scan position yields the empty token sequence.
proof fn lemma_whitespace_lexes_to_nothing(s: Seq<char>, i: int, line: int, col: int, ls: int)
    requires
        0 <= i,
        forall|k: int| 0 <= k < s.len() ==> lexer::is_whitespace_char(s[k]),
    ensures
        lexer::lex_from(s, i, line, col, ls) == Ok::<Seq<TokenModel>, lexer::ErrorModel>(
            Seq::empty(),
        ),
    decreases s.len() - i,
{
    if i < s.len() {
        if s[i] == '\n' {
            lemma_whitespace_lexes_to_nothing(s, i + 1, line + 1, 0, i + 1);
        } else {
            lemma_whitespace_lexes_to_nothing(s, i + 1, line, col + 1, ls);
        }
    } else {
        assert(Seq::<TokenModel>::empty() =~= seq![]);
    }
}

/// An input consisting solely of whitespace (or the empty input) parses
/// to no value — never to an error.
pub proof fn lemma_whitespace_parses_to_none(s: Seq<char>)
    requires
        forall|k: int| 0 <= k < s.len() ==> lexer::is_whitespace_char(s[k]),
    ensures
        parse_text(s) == Ok::<Option<ValueModel>, ParseErrorModel>(None),
{
    lemma_whitespace_lexes_to_nothing(s, 0, 0, 0, 0);
}

// ---------------------------------------------------------------------------
// Object field insertion
// ---------------------------------------------------------------------------

/// When the key already stands at `idx` (and nowhere earlier), insertion
/// replaces that field in place.
proof fn lemma_insert_field_found(
    fields: Seq<(Seq<char>, ValueModel)>,
    k: Seq<char>,
    v: ValueModel,
    idx: int,
)
    requires
        0 <= idx < fields.len(),
        fields[idx].0 == k,
        forall|j: int| 0 <= j < idx ==> fields[j].0 != k,
    ensures
        insert_field(fields, k, v) == fields.update(idx, (k, v)),
    decreases idx,
{
    if idx == 0 {
        assert(seq![(k, v)] + fields.drop_first() =~= fields.update(0, (k, v)));
    } else {
        lemma_insert_field_found(fields.drop_first(), k, v, idx - 1);
        assert(seq![fields[0]] + fields.drop_first().update(idx - 1, (k, v)) =~= fields.update(
            idx,
            (k, v),
        ));
    }
}

/// When the key stands nowhere in the fields, insertion appends.
proof fn lemma_insert_field_missing(
    fields: Seq<(Seq<char>, ValueModel)>,
    k: Seq<char>,
    v: ValueModel,
)
    requires
        forall|j: int| 0 <= j < fields.len() ==> fields[j].0 != k,
    ensures
        insert_field(fields, k, v) == fields.push((k, v)),
    decreases fields.len(),
{
    if fields.len() == 0 {
        assert(seq![(k, v)] =~= fields.push((k, v)));
    } else {
        lemma_insert_field_missing(fields.drop_first(), k, v);
        assert(seq![fields[0]] + fields.drop_first().push((k, v)) =~= fields.push((k, v)));
    }
}

/// Inserts a member into an object's fields: replaces the value of an
/// existing key in place, appends a new key (what `insert_field` says).
fn insert_object_field(fields: &mut Vec<(String, Value)>, key: String, val: Value)
    ensures
        fields_view(final(fields)@) == insert_field(fields_view(old(fields)@), key@, val@),
{
    let ghost km = key@;
    let ghost vm = val@;
    let mut k: usize = 0;
    while k < fields.len()
        invariant
            k <= fields@.len(),
            fields@ == old(fields)@,
            km == key@,
            vm == val@,
            forall|j: int| 0 <= j < k ==> fields_view(fields@)[j].0 != km,
        decreases fields@.len() - k,
    {
        if fields[k].0 == key {
            let ghost old_view = fields_view(fields@);
            fields.remove(k);
            fields.insert(k, (key, val));
            proof {
                lemma_insert_field_found(old_view, km, vm, k as int);
                assert(fields_view(fields@) =~= old_view.update(k as int, (km, vm)));
            }
            return ;
        }
        k += 1;
    }
    let ghost old_view = fields_view(fields@);
    fields.push((key, val));
    proof {
        lemma_insert_field_missing(old_view, km, vm);
        assert(fields_view(fields@) =~= old_view.push((km, vm)));
    }
}

// ---------------------------------------------------------------------------
// The executable parser
// ---------------------------------------------------------------------------

/// Renders a punctuation character for a message.
fn render_punct(c: char) -> (r: String)
    ensures
        r@ == punct_text(c),
{
    if c == '(' {
        "(".to_owned()
    } else if c == ')' {
        ")".to_owned()
    } else if c == '[' {
        "[".to_owned()
    } else if c == ']' {
        "]".to_owned()
    } else if c == '{' {
        "{".to_owned()
    } else if c == '}' {
        "}".to_owned()
    } else if c == ':' {
        ":".to_owned()
    } else if c == ',' {
        ",".to_owned()
    } else {
        "?".to_owned()
    }
}

/// Renders the token named in a grammar-violation message.
fn render_token(t: &Token) -> (r: String)
    ensures
        r@ == token_name(t@),
{
    match t {
        Token::String(s) => s.clone(),
        Token::Number(x) => x.clone(),
        Token::Bool(b) => if *b {
            "true".to_owned()
        } else {
            "false".to_owned()
        },
        Token::Null => "null".to_owned(),
        Token::Punct(c) => render_punct(*c),
    }
}

/// A grammar-violation message: the prefix, then the offending token's
/// name, then the closing quote.
fn quote_into(prefix: &str, name: &str) -> (r: String)
    ensures
        r@ == prefix@ + name@ + "'"@,
{
    let mut m = prefix.to_owned();
    m.append(name);
    m.append("'");
    m
}

/// The punctuation token `c` stands at token index `j`.
fn punct_at(toks: &Vec<Token>, j: usize, c: char) -> (b: bool)
    requires
        j <= toks@.len(),
    ensures
        b == (j < toks@.len() && tokens_view(toks@)[j as int] == TokenModel::Punct(c)),
{
    if j < toks.len() {
        match &toks[j] {
            Token::Punct(p) => *p == c,
            _ => false,
        }
    } else {
        false
    }
}

/// The parser; stateless, one instance parses any number of inputs.
pub struct Parser {}

impl Parser {
    /// A fresh parser.
    pub fn new() -> (r: Self)
        ensures
            r == (Parser {  }),
    {
        Parser {  }
    }

    /// Parses the whole input: `Ok(None)` when the input lexes to no
    /// tokens at all (empty or all whitespace), otherwise the one
    /// top-level value, tokens after it ignored. Produces exactly what
    /// `parse_text` says of the input.
    pub fn parse(&self, input: &str) -> (r: Result<Option<Value>, Error>)
        ensures
            match r {
                Ok(None::<Value>) => parse_text(input@) == Ok::<Option<ValueModel>, ParseErrorModel>(
                    None,
                ),
                Ok(Some(v)) => parse_text(input@) == Ok::<Option<ValueModel>, ParseErrorModel>(
                    Some(v@),
                ),
                Err(e) => parse_text(input@) == Err::<Option<ValueModel>, ParseErrorModel>(e@),
            },
    {
        let mut lx = lexer::Lexer::new();
        let tokens = match lx.lex(input) {
            Ok(t) => t,
            Err(e) => {
                return Err(Error::LexError(e));
            },
        };
        if tokens.len() == 0 {
            return Ok(None);
        }
        match self.parse_value(&tokens, 0) {
            Ok((v, _consumed)) => Ok(Some(v)),
            Err(e) => Err(e),
        }
    }

    /// Parses one value at token index `i`: a keyword, number or string
    /// token directly, `[` as a list, `{` as an object. Produces exactly
    /// what `parse_value_at` says.
    fn parse_value(&self, toks: &Vec<Token>, i: usize) -> (res: Result<(Value, usize), Error>)
        requires
            i <= toks@.len(),
        ensures
            match res {
                Ok((v, j)) => parse_value_at(tokens_view(toks@), i as int) == Ok::<
                    (ValueModel, int),
                    Seq<char>,
                >((v@, j as int)) && i < j <= toks@.len(),
                Err(e) => e@ matches ParseErrorModel::ParseError(m) && parse_value_at(
                    tokens_view(toks@),
                    i as int,
                ) == Err::<(ValueModel, int), Seq<char>>(m),
            },
        decreases toks@.len() - i, 0int,
    {
        if i >= toks.len() {
            return Err(Error::ParseError(quote_into("unexpected token '", "end of input")));
        }
        match &toks[i] {
            Token::Null => Ok((Value::Null, i + 1)),
            Token::Bool(b) => Ok((Value::Boolean(*b), i + 1)),
            Token::Number(s) => Ok((Value::Number(s.clone()), i + 1)),
            Token::String(s) => Ok((Value::String(s.clone()), i + 1)),
            Token::Punct(c) => {
                if *c == '[' {
                    self.parse_list(toks, i + 1)
                } else if *c == '{' {
                    self.parse_object(toks, i + 1)
                } else {
                    let name = render_token(&toks[i]);
                    Err(Error::ParseError(quote_into("unexpected token '", name.as_str())))
                }
            },
        }
    }

    /// Parses list elements from token index `i` (just past the `[`) up
    /// to the closing `]`. Produces exactly what `parse_list_from` says.
    fn parse_list(&self, toks: &Vec<Token>, i: usize) -> (res: Result<(Value, usize), Error>)
        requires
            1 <= i <= toks@.len(),
        ensures
            match res {
                Ok((v, j)) => parse_list_from(tokens_view(toks@), i as int, Seq::empty()) == Ok::<
                    (ValueModel, int),
                    Seq<char>,
                >((v@, j as int)) && i <= j <= toks@.len(),
                Err(e) => e@ matches ParseErrorModel::ParseError(m) && parse_list_from(
                    tokens_view(toks@),
                    i as int,
                    Seq::empty(),
                ) == Err::<(ValueModel, int), Seq<char>>(m),
            },
        decreases toks@.len() - i, 1int,
    {
        let ghost t = tokens_view(toks@);
        let n = toks.len();
        let mut items: Vec<Value> = Vec::new();
        let mut cur = i;
        proof {
            assert(list_view(items@) =~= Seq::<ValueModel>::empty());
        }
        loop
            invariant
                n == toks@.len(),
                1 <= i <= cur <= toks@.len(),
                t == tokens_view(toks@),
                parse_list_from(t, i as int, Seq::empty()) == parse_list_from(
                    t,
                    cur as int,
                    list_view(items@),
                ),
            decreases toks@.len() - cur,
        {
            let ghost acc = list_view(items@);
            if punct_at(toks, cur, ']') {
                return Ok((Value::List(items), cur + 1));
            }
            let (v, j) = match self.parse_value(toks, cur) {
                Ok(p) => p,
                Err(e) => {
                    return Err(e);
                },
            };
            let ghost vm = v@;
            items.push(v);
            proof {
                assert(list_view(items@) =~= acc.push(vm));
            }
            if j >= n {
                return Err(
                    Error::ParseError("unexpected end of input while parsing list".to_owned()),
                );
            }
            if punct_at(toks, j, ',') {
                cur = j + 1;
            } else if punct_at(toks, j, ']') {
                return Ok((Value::List(items), j + 1));
            } else {
                cur = j;
            }
        }
    }

    /// Parses object members from token index `i` (just past the `{`) up
    /// to the closing `}`: a string key, a `:`, the member's value, last
    /// write winning on a repeated key. Produces exactly what
    /// `parse_object_from` says.
    fn parse_object(&self, toks: &Vec<Token>, i: usize) -> (res: Result<(Value, usize), Error>)
        requires
            1 <= i <= toks@.len(),
        ensures
            match res {
                Ok((v, j)) => parse_object_from(tokens_view(toks@), i as int, Seq::empty())
                    == Ok::<(ValueModel, int), Seq<char>>((v@, j as int)) && i <= j <= toks@.len(),
                Err(e) => e@ matches ParseErrorModel::ParseError(m) && parse_object_from(
                    tokens_view(toks@),
                    i as int,
                    Seq::empty(),
                ) == Err::<(ValueModel, int), Seq<char>>(m),
            },
        decreases toks@.len() - i, 1int,
    {
        let ghost t = tokens_view(toks@);
        let n = toks.len();
        let mut fields: Vec<(String, Value)> = Vec::new();
        let mut cur = i;
        proof {
            assert(fields_view(fields@) =~= Seq::<(Seq<char>, ValueModel)>::empty());
        }
        loop
            invariant
                n == toks@.len(),
                1 <= i <= cur <= toks@.len(),
                t == tokens_view(toks@),
                parse_object_from(t, i as int, Seq::empty()) == parse_object_from(
                    t,
                    cur as int,
                    fields_view(fields@),
                ),
            decreases toks@.len() - cur,
        {
            let ghost acc = fields_view(fields@);
            if punct_at(toks, cur, '}') {
                return Ok((Value::Object(fields), cur + 1));
            }
            let (kv, j) = match self.parse_value(toks, cur) {
                Ok(p) => p,
                Err(e) => {
                    return Err(e);
                },
            };
            let key = match kv {
                Value::String(s) => s,
                _ => {
                    return Err(Error::ParseError("invalid key value".to_owned()));
                },
            };
            if !punct_at(toks, j, ':') {
                let name: String = if j < toks.len() {
                    render_token(&toks[j])
                } else {
                    "end of input".to_owned()
                };
                return Err(Error::ParseError(quote_into("expected ':', got '", name.as_str())));
            }
            let (v, j2) = match self.parse_value(toks, j + 1) {
                Ok(p) => p,
                Err(e) => {
                    return Err(e);
                },
            };
            let ghost km = key@;
            let ghost vm = v@;
            insert_object_field(&mut fields, key, v);
            proof {
                assert(fields_view(fields@) == insert_field(acc, km, vm));
            }
            if j2 >= n {
                return Err(
                    Error::ParseError("unexpected end of input while parsing list".to_owned()),
                );
            }
            if punct_at(toks, j2, ',') {
                cur = j2 + 1;
            } else if punct_at(toks, j2, '}') {
                return Ok((Value::Object(fields), j2 + 1));
            } else {
                cur = j2;
            }
        }
    }
}

} // verus!
