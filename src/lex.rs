//! Tokenizer and parser for attribute expressions such as `checkpoint(0,-3,true)`.
use vstd::prelude::*;

verus! {

/// One token of an attribute expression.
#[derive(Clone, Copy, Debug, PartialEq, Eq, Structural)]
pub enum LexItem {
    Paren,
    Comma,
    Space,
    Minus,
    Number(u8),
    Character(char),
}

pub open spec fn is_digit_char(c: char) -> bool {
    48 <= (c as u32) <= 57
}

/// The token that a single character becomes.
pub open spec fn lex_char(c: char) -> LexItem {
    if c == '-' {
        LexItem::Minus
    } else if c == ' ' {
        LexItem::Space
    } else if c == ',' {
        LexItem::Comma
    } else if c == '(' || c == ')' {
        LexItem::Paren
    } else if is_digit_char(c) {
        LexItem::Number(((c as u32) - 48) as u8)
    } else {
        LexItem::Character(c)
    }
}

pub open spec fn lex_spec(s: Seq<char>) -> Seq<LexItem> {
    s.map_values(|c: char| lex_char(c))
}

fn lex_one(c: char) -> (r: LexItem)
    ensures
        r == lex_char(c),
{
    if c == '-' {
        LexItem::Minus
    } else if c == ' ' {
        LexItem::Space
    } else if c == ',' {
        LexItem::Comma
    } else if c == '(' || c == ')' {
        LexItem::Paren
    } else if '0' <= c && c <= '9' {
        LexItem::Number(((c as u32) - 48) as u8)
    } else {
        LexItem::Character(c)
    }
}

/// Turns each character of `input` into one token.
pub fn lex(input: &String) -> (r: Vec<LexItem>)
    ensures
        r@ == lex_spec(input@),
{
    let mut r: Vec<LexItem> = Vec::new();
    for c in it: input.as_str().chars()
        invariant
            it.seq() == input@,
            r@ == lex_spec(input@.take(it.index() as int)),
    {
        r.push(lex_one(c));
        assert(input@.take(it.index() + 1) == input@.take(it.index() as int).push(c));
    }
    assert(input@.take(input@.len() as int) == input@);
    r
}


/// Digits carry a value of at most nine, as the tokenizer produces them.
pub open spec fn tokens_well_formed(t: Seq<LexItem>) -> bool {
    forall|i: int| 0 <= i < t.len() && (#[trigger] t[i]) is Number ==> t[i]->Number_0 <= 9
}

pub open spec fn is_separator(tok: LexItem) -> bool {
    tok is Paren || tok is Comma || tok is Space
}

/// The end of the run of digit tokens that starts at `pos`.
pub open spec fn digits_end(t: Seq<LexItem>, pos: int) -> int
    decreases t.len() - pos,
{
    if 0 <= pos < t.len() && t[pos] is Number {
        digits_end(t, pos + 1)
    } else {
        pos
    }
}

/// The end of the word (characters, minus signs and digits) that starts at `pos`.
pub open spec fn word_end(t: Seq<LexItem>, pos: int) -> int
    decreases t.len() - pos,
{
    if 0 <= pos < t.len() && !is_separator(t[pos]) {
        word_end(t, pos + 1)
    } else {
        pos
    }
}

pub open spec fn digit_of(tok: LexItem) -> int {
    match tok {
        LexItem::Number(d) => d as int,
        _ => 0,
    }
}

/// The base-10 value of the digit tokens in `[from, to)`.
pub open spec fn digits_value(t: Seq<LexItem>, from: int, to: int) -> int
    decreases to - from,
{
    if to <= from {
        0
    } else {
        digits_value(t, from, to - 1) * 10 + digit_of(t[to - 1])
    }
}

pub open spec fn digit_char(d: u8) -> char {
    ((d + 48) as u8) as char
}

/// The text that a token of a word stands for.
pub open spec fn token_text(tok: LexItem) -> Seq<char> {
    match tok {
        LexItem::Character(c) => seq![c],
        LexItem::Minus => seq!['-'],
        LexItem::Number(d) => seq![digit_char(d)],
        _ => Seq::empty(),
    }
}

/// The text of the tokens in `[from, to)`.
pub open spec fn word_text(t: Seq<LexItem>, from: int, to: int) -> Seq<char>
    decreases to - from,
{
    if to <= from {
        Seq::empty()
    } else {
        word_text(t, from, to - 1) + token_text(t[to - 1])
    }
}

pub proof fn lemma_digits_end_bounds(t: Seq<LexItem>, pos: int)
    requires
        0 <= pos <= t.len(),
    ensures
        pos <= digits_end(t, pos) <= t.len(),
        forall|i: int| pos <= i < digits_end(t, pos) ==> (#[trigger] t[i]) is Number,
        digits_end(t, pos) < t.len() ==> !(t[digits_end(t, pos)] is Number),
    decreases t.len() - pos,
{
    if pos < t.len() && t[pos] is Number {
        lemma_digits_end_bounds(t, pos + 1);
    }
}

pub proof fn lemma_word_end_bounds(t: Seq<LexItem>, pos: int)
    requires
        0 <= pos <= t.len(),
    ensures
        pos <= word_end(t, pos) <= t.len(),
        forall|i: int| pos <= i < word_end(t, pos) ==> !is_separator(#[trigger] t[i]),
        word_end(t, pos) < t.len() ==> is_separator(t[word_end(t, pos)]),
    decreases t.len() - pos,
{
    if pos < t.len() && !is_separator(t[pos]) {
        lemma_word_end_bounds(t, pos + 1);
    }
}

/// Extending a run of digits never lowers its value.
pub proof fn lemma_digits_value_grows(t: Seq<LexItem>, from: int, mid: int, to: int)
    requires
        from <= mid <= to,
        forall|i: int| from <= i < to ==> (#[trigger] t[i]) is Number,
    ensures
        digits_value(t, from, mid) <= digits_value(t, from, to),
        0 <= digits_value(t, from, mid),
    decreases to - from,
{
    if to > mid {
        lemma_digits_value_grows(t, from, mid, to - 1);
        assert(t[to - 1] is Number);
    } else if mid > from {
        lemma_digits_value_grows(t, from, mid - 1, mid - 1);
        assert(t[mid - 1] is Number);
    }
}

/// What an argument of an attribute expression stands for.
pub enum ArgumentValue {
    Str(Seq<char>),
    Number(i64),
    Bool(bool),
}

/// What an item of a parsed attribute expression stands for.
pub enum ItemValue {
    Key(Seq<char>),
    Argument(ArgumentValue),
}

/// A typed argument of an attribute expression.
#[derive(Clone, Debug, PartialEq, Eq)]
pub enum ParseArgumentItem {
    Str(String),
    Number(i64),
    Bool(bool),
}

impl View for ParseArgumentItem {
    type V = ArgumentValue;

    open spec fn view(&self) -> ArgumentValue {
        match self {
            ParseArgumentItem::Str(s) => ArgumentValue::Str(s@),
            ParseArgumentItem::Number(n) => ArgumentValue::Number(*n),
            ParseArgumentItem::Bool(b) => ArgumentValue::Bool(*b),
        }
    }
}

/// An item of a parsed attribute expression: its key or one of its arguments.
#[derive(Clone, Debug, PartialEq, Eq)]
pub enum ParseItem {
    Key(String),
    Argument(ParseArgumentItem),
}

impl View for ParseItem {
    type V = ItemValue;

    open spec fn view(&self) -> ItemValue {
        match self {
            ParseItem::Key(s) => ItemValue::Key(s@),
            ParseItem::Argument(a) => ItemValue::Argument(a@),
        }
    }
}

/// Why a token sequence is not an attribute expression; each carries the
/// position of the offending token.
#[derive(Clone, Copy, Debug, PartialEq, Eq, Structural)]
pub enum ParseError {
    /// A minus sign that no digit follows.
    InvalidMinus(usize),
    /// A number that does not fit in 64 signed bits.
    NumberOutOfRange(usize),
}

pub open spec fn prepend_items(p: Seq<ItemValue>, r: Result<Seq<ItemValue>, ParseError>) -> Result<
    Seq<ItemValue>,
    ParseError,
> {
    match r {
        Ok(s) => Ok(p + s),
        Err(e) => Err(e),
    }
}

/// The item that a word becomes.
pub open spec fn word_item(w: Seq<char>, within_arguments: bool) -> ItemValue {
    if w == "true"@ {
        ItemValue::Argument(ArgumentValue::Bool(true))
    } else if w == "false"@ {
        ItemValue::Argument(ArgumentValue::Bool(false))
    } else if within_arguments {
        ItemValue::Argument(ArgumentValue::Str(w))
    } else {
        ItemValue::Key(w)
    }
}

/// The items of the tokens from `pos` on, where `within_arguments` records
/// whether a parenthesis was passed before `pos`.
pub open spec fn parse_from(t: Seq<LexItem>, pos: int, within_arguments: bool) -> Result<
    Seq<ItemValue>,
    ParseError,
>
    decreases t.len() - pos,
    via parse_from_decreases
{
    if pos < 0 || pos >= t.len() {
        Ok(Seq::empty())
    } else {
        match t[pos] {
            LexItem::Paren => parse_from(t, pos + 1, true),
            LexItem::Comma => parse_from(t, pos + 1, within_arguments),
            LexItem::Space => parse_from(t, pos + 1, within_arguments),
            LexItem::Minus => {
                let e = digits_end(t, pos + 1);
                let v = digits_value(t, pos + 1, e);
                if e == pos + 1 {
                    Err(ParseError::InvalidMinus(pos as usize))
                } else if -v < i64::MIN {
                    Err(ParseError::NumberOutOfRange(pos as usize))
                } else {
                    prepend_items(
                        seq![ItemValue::Argument(ArgumentValue::Number((-v) as i64))],
                        parse_from(t, e, within_arguments),
                    )
                }
            },
            LexItem::Number(_) => {
                let e = digits_end(t, pos);
                let v = digits_value(t, pos, e);
                if v > i64::MAX {
                    Err(ParseError::NumberOutOfRange(pos as usize))
                } else {
                    prepend_items(
                        seq![ItemValue::Argument(ArgumentValue::Number(v as i64))],
                        parse_from(t, e, within_arguments),
                    )
                }
            },
            LexItem::Character(_) => {
                let e = word_end(t, pos);
                prepend_items(
                    seq![word_item(word_text(t, pos, e), within_arguments)],
                    parse_from(t, e, within_arguments),
                )
            },
        }
    }
}

#[via_fn]
proof fn parse_from_decreases(t: Seq<LexItem>, pos: int, within_arguments: bool) {
    if 0 <= pos < t.len() {
        lemma_digits_end_bounds(t, pos);
        lemma_digits_end_bounds(t, pos + 1);
        lemma_word_end_bounds(t, pos);
    }
}


/// Reads the run of digit tokens at `pos` as a value with the given sign.
fn scan_digits(input: &Vec<LexItem>, pos: usize, negative: bool) -> (r: Option<(usize, i64)>)
    requires
        pos <= input.len(),
        tokens_well_formed(input@),
    ensures
        ({
            let e = digits_end(input@, pos as int);
            let v = if negative {
                -digits_value(input@, pos as int, e)
            } else {
                digits_value(input@, pos as int, e)
            };
            r == if e == pos || v < i64::MIN || v > i64::MAX {
                None
            } else {
                Some((e as usize, v as i64))
            }
        }),
{
    let ghost t = input@;
    proof {
        lemma_digits_end_bounds(t, pos as int);
    }
    let ghost e = digits_end(t, pos as int);
    let mut p: usize = pos;
    let mut acc: i128 = 0;
    while p < input.len()
        invariant
            pos <= p <= e,
            e <= input.len(),
            t == input@,
            e == digits_end(t, p as int),
            e == digits_end(t, pos as int),
            tokens_well_formed(t),
            forall|i: int| pos <= i < e ==> (#[trigger] t[i]) is Number,
            acc == if negative {
                -digits_value(t, pos as int, p as int)
            } else {
                digits_value(t, pos as int, p as int)
            },
            i64::MIN <= acc <= i64::MAX,
        ensures
            p == e,
            acc == if negative {
                -digits_value(t, pos as int, p as int)
            } else {
                digits_value(t, pos as int, p as int)
            },
            i64::MIN <= acc <= i64::MAX,
        decreases input.len() - p,
    {
        let d: u8 = match input[p] {
            LexItem::Number(d) => d,
            _ => break,
        };
        assert(t[p as int] is Number);
        proof {
            lemma_digits_value_grows(t, pos as int, p as int, p as int);
            lemma_digits_end_bounds(t, p + 1);
        }
        if negative {
            acc = acc * 10 - (d as i128);
        } else {
            acc = acc * 10 + (d as i128);
        }
        p = p + 1;
        assert(digits_value(t, pos as int, p as int) == digits_value(t, pos as int, p - 1) * 10 + d);
        if acc < i64::MIN as i128 || acc > i64::MAX as i128 {
            proof {
                lemma_digits_end_bounds(t, p as int);
                lemma_digits_value_grows(t, pos as int, p as int, e);
            }
            return None;
        }
    }
    if p == pos {
        return None;
    }
    Some((p, acc as i64))
}

/// Reads the run of digit tokens at `current_pos` as a base-10 number; `None`
/// where there is no digit there or the number does not fit in an `i64`.
pub fn parse_number(input: &Vec<LexItem>, current_pos: usize) -> (r: Option<(usize, i64)>)
    requires
        current_pos <= input.len(),
        tokens_well_formed(input@),
    ensures
        ({
            let e = digits_end(input@, current_pos as int);
            let v = digits_value(input@, current_pos as int, e);
            r == if e == current_pos || v > i64::MAX {
                None
            } else {
                Some((e as usize, v as i64))
            }
        }),
{
    proof {
        lemma_digits_end_bounds(input@, current_pos as int);
        lemma_digits_value_grows(
            input@,
            current_pos as int,
            current_pos as int,
            digits_end(input@, current_pos as int),
        );
    }
    scan_digits(input, current_pos, false)
}

/// Relies on `String::push`: appends one character.
#[verifier::external_body]
fn push_char(s: &mut String, c: char)
    ensures
        final(s)@ == old(s)@.push(c),
{
    s.push(c)
}

/// Reads the word at `current_pos`: the run of characters, minus signs and
/// digits that ends at a parenthesis, a comma, a space or the end of input.
pub fn parse_string(input: &Vec<LexItem>, current_pos: usize) -> (r: Option<(usize, String)>)
    requires
        current_pos <= input.len(),
        tokens_well_formed(input@),
    ensures
        r matches Some((e, w)) && e == word_end(input@, current_pos as int) && w@ == word_text(
            input@,
            current_pos as int,
            e as int,
        ),
{
    let ghost t = input@;
    proof {
        lemma_word_end_bounds(t, current_pos as int);
    }
    let mut pos: usize = current_pos;
    let mut w = String::new();
    while pos < input.len()
        invariant
            current_pos <= pos <= input.len(),
            t == input@,
            tokens_well_formed(t),
            word_end(t, current_pos as int) == word_end(t, pos as int),
            w@ == word_text(t, current_pos as int, pos as int),
        ensures
            pos == word_end(t, current_pos as int),
            w@ == word_text(t, current_pos as int, pos as int),
        decreases input.len() - pos,
    {
        let c: char = match input[pos] {
            LexItem::Character(c) => c,
            LexItem::Minus => '-',
            LexItem::Number(d) => {
                assert(t[pos as int] is Number);
                (d + 48) as char
            },
            _ => break,
        };
        push_char(&mut w, c);
        pos = pos + 1;
        assert(w@ == word_text(t, current_pos as int, pos as int));
    }
    Some((pos, w))
}

/// Whether `w` holds exactly the text `lit`.
pub(crate) fn is_text(w: &String, lit: &str) -> (r: bool)
    ensures
        r == (w@ == lit@),
{
    let l = lit.to_owned();
    *w == l
}

proof fn lemma_prepend(p: Seq<ItemValue>, x: ItemValue, r: Result<Seq<ItemValue>, ParseError>)
    ensures
        prepend_items(p, prepend_items(seq![x], r)) == prepend_items(p.push(x), r),
{
    if let Ok(s) = r {
        assert(p + (seq![x] + s) =~= p.push(x) + s);
    }
}

pub open spec fn items_view(v: Seq<ParseItem>) -> Seq<ItemValue> {
    v.map_values(|x: ParseItem| x@)
}

/// Parses a token sequence into its key and arguments, in the order written.
pub fn parse(input: Vec<LexItem>) -> (r: Result<Vec<ParseItem>, ParseError>)
    requires
        tokens_well_formed(input@),
    ensures
        match r {
            Ok(v) => parse_from(input@, 0, false) == Ok::<Seq<ItemValue>, ParseError>(
                items_view(v@),
            ),
            Err(e) => parse_from(input@, 0, false) == Err::<Seq<ItemValue>, ParseError>(e),
        },
{
    let ghost t = input@;
    let mut result: Vec<ParseItem> = Vec::new();
    let mut pos: usize = 0;
    let mut within_arguments = false;
    assert(items_view(result@) =~= Seq::<ItemValue>::empty());
    assert(prepend_items(Seq::empty(), parse_from(t, 0, false)) == parse_from(t, 0, false)) by {
        if let Ok(s) = parse_from(t, 0, false) {
            assert(Seq::<ItemValue>::empty() + s =~= s);
        }
    }
    while pos < input.len()
        invariant
            pos <= input.len(),
            t == input@,
            tokens_well_formed(t),
            prepend_items(items_view(result@), parse_from(t, pos as int, within_arguments))
                == parse_from(t, 0, false),
        decreases input.len() - pos,
    {
        let ghost old_view = items_view(result@);
        match input[pos] {
            LexItem::Paren => {
                pos = pos + 1;
                within_arguments = true;
            },
            LexItem::Comma => {
                pos = pos + 1;
            },
            LexItem::Space => {
                pos = pos + 1;
            },
            LexItem::Minus => {
                proof {
                    lemma_digits_end_bounds(t, pos + 1);
                    if pos + 2 <= t.len() {
                        lemma_digits_end_bounds(t, pos + 2);
                    }
                    let e = digits_end(t, pos + 1);
                    lemma_digits_value_grows(t, pos + 1, e, e);
                }
                let has_digit = pos + 1 < input.len() && matches!(input[pos + 1], LexItem::Number(_));
                if !has_digit {
                    return Err(ParseError::InvalidMinus(pos));
                }
                match scan_digits(&input, pos + 1, true) {
                    Some((new_pos, n)) => {
                        let x = ParseItem::Argument(ParseArgumentItem::Number(n));
                        result.push(x);
                        proof {
                            lemma_prepend(old_view, x@, parse_from(t, new_pos as int, within_arguments));
                            assert(items_view(result@) =~= old_view.push(x@));
                        }
                        pos = new_pos;
                    },
                    None => {
                        return Err(ParseError::NumberOutOfRange(pos));
                    },
                }
            },
            LexItem::Number(_) => {
                proof {
                    lemma_digits_end_bounds(t, pos as int);
                    lemma_digits_end_bounds(t, pos + 1);
                }
                match parse_number(&input, pos) {
                    Some((new_pos, n)) => {
                        let x = ParseItem::Argument(ParseArgumentItem::Number(n));
                        result.push(x);
                        proof {
                            lemma_prepend(old_view, x@, parse_from(t, new_pos as int, within_arguments));
                            assert(items_view(result@) =~= old_view.push(x@));
                        }
                        pos = new_pos;
                    },
                    None => {
                        return Err(ParseError::NumberOutOfRange(pos));
                    },
                }
            },
            LexItem::Character(_) => {
                proof {
                    lemma_word_end_bounds(t, pos as int);
                }
                let (new_pos, word) = match parse_string(&input, pos) {
                    Some(found) => found,
                    // parse_string always reads a word
                    None => {
                        return Ok(result);
                    },
                };
                let x = if is_text(&word, "true") {
                    ParseItem::Argument(ParseArgumentItem::Bool(true))
                } else if is_text(&word, "false") {
                    ParseItem::Argument(ParseArgumentItem::Bool(false))
                } else if within_arguments {
                    ParseItem::Argument(ParseArgumentItem::Str(word))
                } else {
                    ParseItem::Key(word)
                };
                result.push(x);
                proof {
                    lemma_prepend(old_view, x@, parse_from(t, new_pos as int, within_arguments));
                    assert(items_view(result@) =~= old_view.push(x@));
                }
                pos = new_pos;
            },
        }
    }
    assert(items_view(result@) + Seq::<ItemValue>::empty() =~= items_view(result@));
    Ok(result)
}


/// A compiled attribute expression: its key and its arguments in the order
/// written.
#[derive(Clone, Debug, PartialEq, Eq)]
pub struct AttributeEntry(pub String, pub Vec<ParseArgumentItem>);

pub open spec fn arguments_view(v: Seq<ParseArgumentItem>) -> Seq<ArgumentValue> {
    v.map_values(|a: ParseArgumentItem| a@)
}

impl View for AttributeEntry {
    type V = (Seq<char>, Seq<ArgumentValue>);

    open spec fn view(&self) -> (Seq<char>, Seq<ArgumentValue>) {
        (self.0@, arguments_view(self.1@))
    }
}

/// Why a string is not an attribute expression.
#[derive(Clone, Copy, Debug, PartialEq, Eq, Structural)]
pub enum AttributeError {
    /// The tokens do not parse.
    Parse(ParseError),
    /// The expression does not start with a key.
    MissingKey,
    /// A second bare word stands outside the arguments.
    SecondKey,
}

/// The key and arguments that parsed items make up.
pub open spec fn entry_from_items(items: Seq<ItemValue>) -> Result<
    (Seq<char>, Seq<ArgumentValue>),
    AttributeError,
> {
    if items.len() == 0 || !(items[0] is Key) {
        Err(AttributeError::MissingKey)
    } else if exists|i: int| 1 <= i < items.len() && (#[trigger] items[i]) is Key {
        Err(AttributeError::SecondKey)
    } else {
        Ok((items[0]->Key_0, items.drop_first().map_values(|x: ItemValue| x->Argument_0)))
    }
}

/// What compiling the attribute expression `s` gives.
pub open spec fn compile_spec(s: Seq<char>) -> Result<(Seq<char>, Seq<ArgumentValue>), AttributeError> {
    match parse_from(lex_spec(s), 0, false) {
        Ok(items) => entry_from_items(items),
        Err(e) => Err(AttributeError::Parse(e)),
    }
}

pub proof fn lemma_lex_well_formed(s: Seq<char>)
    ensures
        tokens_well_formed(lex_spec(s)),
{
}

fn copy_argument(a: &ParseArgumentItem) -> (r: ParseArgumentItem)
    ensures
        r@ == a@,
{
    match a {
        ParseArgumentItem::Str(s) => ParseArgumentItem::Str(s.clone()),
        ParseArgumentItem::Number(n) => ParseArgumentItem::Number(*n),
        ParseArgumentItem::Bool(b) => ParseArgumentItem::Bool(*b),
    }
}

impl AttributeEntry {
    /// Compiles an attribute expression such as `checkpoint(0,-3)` into its key
    /// and typed arguments.
    pub fn compile(entry: &String) -> (r: Result<AttributeEntry, AttributeError>)
        ensures
            match r {
                Ok(e) => compile_spec(entry@) == Ok::<_, AttributeError>(e@),
                Err(x) => compile_spec(entry@) == Err::<(Seq<char>, Seq<ArgumentValue>), _>(x),
            },
    {
        let tokens = lex(entry);
        proof {
            lemma_lex_well_formed(entry@);
        }
        let items = match parse(tokens) {
            Ok(items) => items,
            Err(e) => {
                return Err(AttributeError::Parse(e));
            },
        };
        let ghost iv = items_view(items@);
        if items.len() == 0 {
            return Err(AttributeError::MissingKey);
        }
        let key = match &items[0] {
            ParseItem::Key(k) => k.clone(),
            ParseItem::Argument(_) => {
                return Err(AttributeError::MissingKey);
            },
        };
        assert(iv[0] == items@[0]@);
        let mut args: Vec<ParseArgumentItem> = Vec::new();
        let mut i: usize = 1;
        assert(arguments_view(args@) =~= iv.subrange(1, 1).map_values(|x: ItemValue| x->Argument_0));
        while i < items.len()
            invariant
                1 <= i <= items.len(),
                iv == items_view(items@),
                parse_from(lex_spec(entry@), 0, false) == Ok::<_, ParseError>(iv),
                iv[0] is Key,
                forall|j: int| 1 <= j < i ==> !(#[trigger] iv[j] is Key),
                arguments_view(args@) == iv.subrange(1, i as int).map_values(
                    |x: ItemValue| x->Argument_0,
                ),
            decreases items.len() - i,
        {
            assert(iv[i as int] == items@[i as int]@);
            match &items[i] {
                ParseItem::Argument(a) => {
                    let c = copy_argument(a);
                    assert(iv[i as int] == ItemValue::Argument(a@));
                    assert(c@ == iv[i as int]->Argument_0);
                    let ghost before = args@;
                    args.push(c);
                    assert(arguments_view(args@) == arguments_view(before).push(c@));
                },
                ParseItem::Key(_) => {
                    assert(iv[i as int] is Key);
                    return Err(AttributeError::SecondKey);
                },
            }
            assert(arguments_view(args@) =~= iv.subrange(1, i + 1).map_values(
                |x: ItemValue| x->Argument_0,
            ));
            i = i + 1;
        }
        assert(iv.subrange(1, i as int) =~= iv.drop_first());
        Ok(AttributeEntry(key, args))
    }
}


pub open spec fn is_identifier_char(c: char) -> bool {
    ('a' <= c && c <= 'z') || ('A' <= c && c <= 'Z') || ('0' <= c && c <= '9') || c == '_'
}

/// A bare identifier: letters, digits and underscores, not starting with a digit.
pub open spec fn is_bare_identifier(k: Seq<char>) -> bool {
    &&& k.len() > 0
    &&& !('0' <= k[0] && k[0] <= '9')
    &&& forall|i: int| 0 <= i < k.len() ==> is_identifier_char(#[trigger] k[i])
}

proof fn lemma_identifier_char_text(c: char)
    requires
        is_identifier_char(c),
    ensures
        !is_separator(lex_char(c)),
        token_text(lex_char(c)) == seq![c],
{
    if '0' <= c && c <= '9' {
        let d = ((c as u32) - 48) as u8;
        assert((d + 48) as u8 == c as u32);
        assert(digit_char(d) == c);
    }
}

/// In the tokens of an identifier followed by `t.len() - n` separators, the
/// word at `pos` runs to `n` and reads as the identifier's tail.
proof fn lemma_identifier_word(k: Seq<char>, t: Seq<LexItem>, pos: int)
    requires
        is_bare_identifier(k),
        0 <= pos <= k.len(),
        k.len() <= t.len(),
        forall|i: int| 0 <= i < k.len() ==> #[trigger] t[i] == lex_char(k[i]),
        k.len() < t.len() ==> is_separator(t[k.len() as int]),
    ensures
        word_end(t, pos) == k.len(),
        word_text(t, pos, k.len() as int) == k.subrange(pos, k.len() as int),
    decreases k.len() - pos,
{
    if pos < k.len() {
        lemma_identifier_char_text(k[pos]);
        lemma_identifier_word(k, t, pos + 1);
        lemma_word_text_front(t, pos, k.len() as int);
        assert(k.subrange(pos, k.len() as int) =~= seq![k[pos]] + k.subrange(pos + 1, k.len() as int));
    } else {
        assert(k.subrange(pos, k.len() as int) =~= Seq::<char>::empty());
    }
}

/// A word's text is its first token's text followed by the rest.
proof fn lemma_word_text_front(t: Seq<LexItem>, from: int, to: int)
    requires
        from < to,
    ensures
        word_text(t, from, to) == token_text(t[from]) + word_text(t, from + 1, to),
    decreases to - from,
{
    if to - 1 > from {
        lemma_word_text_front(t, from, to - 1);
        assert(word_text(t, from, to) =~= token_text(t[from]) + word_text(t, from + 1, to));
    } else {
        assert(word_text(t, from, from) == Seq::<char>::empty());
        assert(word_text(t, from + 1, to) == Seq::<char>::empty());
        assert(word_text(t, from, to) =~= token_text(t[from]) + word_text(t, from + 1, to));
    }
}

/// A bare identifier, alone or followed by an empty argument list, compiles
/// to that key with no arguments.
pub proof fn law_bare_key(k: Seq<char>)
    requires
        is_bare_identifier(k),
        k != "true"@,
        k != "false"@,
    ensures
        compile_spec(k) == Ok::<_, AttributeError>((k, Seq::<ArgumentValue>::empty())),
        compile_spec(k + "()"@) == Ok::<_, AttributeError>((k, Seq::<ArgumentValue>::empty())),
{
    let n = k.len() as int;
    let ok: Result<(Seq<char>, Seq<ArgumentValue>), AttributeError> = Ok((k, Seq::empty()));
    let items = seq![ItemValue::Key(k)];
    assert(entry_from_items(items) == ok) by {
        assert(items.drop_first().map_values(|x: ItemValue| x->Argument_0) =~= Seq::<ArgumentValue>::empty());
    }
    assert(k.subrange(0, n) =~= k);

    let t = lex_spec(k);
    lemma_identifier_word(k, t, 0);
    assert(t[0] is Character);
    assert(parse_from(t, n, false) == Ok::<_, ParseError>(Seq::<ItemValue>::empty()));
    assert(seq![word_item(k, false)] + Seq::<ItemValue>::empty() =~= items);
    assert(parse_from(t, 0, false) == Ok::<_, ParseError>(items));

    reveal_strlit("()");
    let k2 = k + "()"@;
    let t2 = lex_spec(k2);
    assert(forall|i: int| 0 <= i < n ==> #[trigger] t2[i] == lex_char(k[i])) by {
        assert forall|i: int| 0 <= i < n implies #[trigger] t2[i] == lex_char(k[i]) by {
            assert(k2[i] == k[i]);
        }
    }
    assert(k2[n] == '(' && k2[n + 1] == ')');
    assert(t2[n] is Paren && t2[n + 1] is Paren && t2.len() == n + 2);
    lemma_identifier_word(k, t2, 0);
    assert(t2[0] == lex_char(k[0]));
    assert(parse_from(t2, n + 2, true) == Ok::<_, ParseError>(Seq::<ItemValue>::empty()));
    assert(parse_from(t2, n + 1, true) == Ok::<_, ParseError>(Seq::<ItemValue>::empty()));
    assert(parse_from(t2, n, false) == Ok::<_, ParseError>(Seq::<ItemValue>::empty()));
    assert(parse_from(t2, 0, false) == Ok::<_, ParseError>(items));
}


/// The decimal digits of `n`, most significant first.
pub open spec fn nat_text(n: nat) -> Seq<char>
    decreases n,
{
    if n < 10 {
        seq![digit_char(n as u8)]
    } else {
        nat_text(n / 10).push(digit_char((n % 10) as u8))
    }
}

/// `n` written in base 10, with a leading minus sign where it is negative.
pub open spec fn int_text(n: int) -> Seq<char> {
    if n < 0 {
        seq!['-'] + nat_text((-n) as nat)
    } else {
        nat_text(n as nat)
    }
}

proof fn lemma_digit_char_lexes(d: u8)
    requires
        d <= 9,
    ensures
        lex_char(digit_char(d)) == LexItem::Number(d),
{
    assert(digit_char(d) as u32 == d + 48);
}

proof fn lemma_digits_end_exact(t: Seq<LexItem>, pos: int, e: int)
    requires
        0 <= pos <= e <= t.len(),
        forall|i: int| pos <= i < e ==> (#[trigger] t[i]) is Number,
        e < t.len() ==> !(t[e] is Number),
    ensures
        digits_end(t, pos) == e,
    decreases e - pos,
{
    if pos < e {
        lemma_digits_end_exact(t, pos + 1, e);
    }
}

/// The tokens of the digits of `m`, placed at `start`, are a run of digit
/// tokens worth `m`.
proof fn lemma_nat_text_tokens(m: nat, t: Seq<LexItem>, start: int)
    requires
        0 <= start,
        start + nat_text(m).len() <= t.len(),
        forall|i: int|
            0 <= i < nat_text(m).len() ==> #[trigger] t[start + i] == lex_char(nat_text(m)[i]),
    ensures
        nat_text(m).len() >= 1,
        forall|i: int| start <= i < start + nat_text(m).len() ==> (#[trigger] t[i]) is Number,
        digits_value(t, start, start + nat_text(m).len()) == m,
    decreases m,
{
    let l = nat_text(m).len() as int;
    if m < 10 {
        lemma_digit_char_lexes(m as u8);
        assert(t[start + 0] == lex_char(nat_text(m)[0]));
        assert(digits_value(t, start, start) == 0);
    } else {
        let p = nat_text(m / 10);
        assert forall|i: int| 0 <= i < p.len() implies #[trigger] t[start + i] == lex_char(p[i]) by {
            assert(t[start + i] == lex_char(nat_text(m)[i]));
        }
        lemma_nat_text_tokens(m / 10, t, start);
        lemma_digit_char_lexes((m % 10) as u8);
        assert(t[start + (l - 1)] == lex_char(nat_text(m)[l - 1]));
    }
}

/// A signed 64-bit number as the single argument of a key compiles to that
/// number.
pub proof fn law_number_argument(n: i64)
    ensures
        compile_spec(seq!['k', '('] + int_text(n as int) + seq![')']) == Ok::<_, AttributeError>(
            (seq!['k'], seq![ArgumentValue::Number(n)]),
        ),
{
    let s = seq!['k', '('] + int_text(n as int) + seq![')'];
    let t = lex_spec(s);
    let m: nat = if n < 0 { (-n) as nat } else { n as nat };
    let digits = nat_text(m);
    let l = digits.len() as int;
    let start: int = if n < 0 { 3 } else { 2 };
    assert(int_text(n as int) == if n < 0 { seq!['-'] + digits } else { digits });
    assert(s.len() == start + l + 1);
    assert forall|i: int| 0 <= i < l implies #[trigger] t[start + i] == lex_char(digits[i]) by {
        assert(s[start + i] == digits[i]);
    }
    lemma_nat_text_tokens(m, t, start);
    assert(s[start + l] == ')');
    assert(t[start + l] is Paren);
    lemma_digits_end_exact(t, start, start + l);

    assert(s[0] == 'k' && s[1] == '(');
    assert(t[0] == LexItem::Character('k'));
    assert(t[1] is Paren);
    lemma_word_end_bounds(t, 1);
    assert(word_end(t, 0) == 1);
    assert(word_text(t, 0, 0) == Seq::<char>::empty());
    assert(word_text(t, 0, 1) =~= seq!['k']);
    reveal_strlit("true");
    reveal_strlit("false");
    assert(seq!['k'] != "true"@) by {
        assert(seq!['k'].len() != "true"@.len());
    }
    assert(seq!['k'] != "false"@) by {
        assert(seq!['k'].len() != "false"@.len());
    }
    assert(word_item(seq!['k'], false) == ItemValue::Key(seq!['k']));

    let num = ItemValue::Argument(ArgumentValue::Number(n));
    let empty = Seq::<ItemValue>::empty();
    assert(parse_from(t, start + l + 1, true) == Ok::<_, ParseError>(empty));
    assert(parse_from(t, start + l, true) == Ok::<_, ParseError>(empty));
    if n < 0 {
        assert(s[2] == '-');
        assert(t[2] is Minus);
        assert(-digits_value(t, 3, start + l) == n);
        assert(seq![num] + empty =~= seq![num]);
        assert(parse_from(t, 2, true) == Ok::<_, ParseError>(seq![num]));
    } else {
        assert(t[2] is Number);
        assert(seq![num] + empty =~= seq![num]);
        assert(parse_from(t, 2, true) == Ok::<_, ParseError>(seq![num]));
    }
    assert(parse_from(t, 1, false) == Ok::<_, ParseError>(seq![num]));
    let items = seq![ItemValue::Key(seq!['k'])] + seq![num];
    assert(parse_from(t, 0, false) == Ok::<_, ParseError>(items));
    assert(items.drop_first().map_values(|x: ItemValue| x->Argument_0) =~= seq![ArgumentValue::Number(n)]);
    assert(items[1] == num);
    assert(!(exists|i: int| 1 <= i < items.len() && (#[trigger] items[i]) is Key));
}

} // verus!
