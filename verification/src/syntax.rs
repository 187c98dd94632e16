//! The descriptor grammar: tokens, the incremental parse-step function that
//! drives a `native <Name> { ... }` block, the type-expression evaluator,
//! and the compiler that folds a block's items into a struct descriptor.

use crate::native::{
    fields_sorted, lemma_insert_sorted, size_v, spec_insert, struct_size_v, struct_wf_v,
    type_view, wf_v, Field, FieldV, Struct, Type, TypeV,
};
use vstd::prelude::*;

verus! {

/// A lexical token of the declarative surface syntax.
pub enum Token {
    Ident(String),
    Int(i64),
    Punct(char),
}

/// Mathematical form of a token.
pub enum TokenV {
    Ident(Seq<char>),
    Int(i64),
    Punct(char),
}

impl View for Token {
    type V = TokenV;

    open spec fn view(&self) -> TokenV {
        match self {
            Token::Ident(s) => TokenV::Ident(s@),
            Token::Int(v) => TokenV::Int(*v),
            Token::Punct(c) => TokenV::Punct(*c),
        }
    }
}

pub open spec fn tokens_view(ts: Seq<Token>) -> Seq<TokenV>
    decreases ts,
{
    if ts.len() == 0 {
        Seq::empty()
    } else {
        tokens_view(ts.drop_last()).push(ts.last()@)
    }
}

pub proof fn lemma_tokens_view(ts: Seq<Token>)
    ensures
        tokens_view(ts).len() == ts.len(),
        forall|i: int| 0 <= i < ts.len() ==> tokens_view(ts)[i] == ts[i]@,
    decreases ts,
{
    if ts.len() > 0 {
        lemma_tokens_view(ts.drop_last());
    }
}

/// A malformed declarative block.
#[derive(Debug)]
pub struct ParseError {
    pub msg: String,
}

pub open spec fn is_space(c: char) -> bool {
    c == ' ' || c == '\t' || c == '\n' || c == '\r'
}

pub open spec fn is_digit(c: char) -> bool {
    48 <= c as u32 && c as u32 <= 57
}

pub open spec fn is_ident_start(c: char) -> bool {
    (97 <= c as u32 && c as u32 <= 122) || (65 <= c as u32 && c as u32 <= 90) || c == '_'
}

pub open spec fn is_ident_char(c: char) -> bool {
    is_ident_start(c) || is_digit(c)
}

pub open spec fn is_punct(c: char) -> bool {
    c == '^' || c == '{' || c == '}' || c == ',' || c == ':' || c == '(' || c == ')' || c == ';'
}

/// First position at or after `i` that is not an identifier character.
pub open spec fn ident_end(cs: Seq<char>, i: int) -> int
    decreases cs.len() - i,
{
    if i < 0 || i >= cs.len() || !is_ident_char(cs[i]) {
        i
    } else {
        ident_end(cs, i + 1)
    }
}

/// First position at or after `i` that is not a digit.
pub open spec fn digits_end(cs: Seq<char>, i: int) -> int
    decreases cs.len() - i,
{
    if i < 0 || i >= cs.len() || !is_digit(cs[i]) {
        i
    } else {
        digits_end(cs, i + 1)
    }
}

/// First position in `[i, j)` that is not the digit zero.
pub open spec fn zeros_end(cs: Seq<char>, i: int, j: int) -> int
    decreases j - i,
{
    if i < 0 || i >= j || cs[i] != '0' {
        i
    } else {
        zeros_end(cs, i + 1, j)
    }
}

/// The number the digits in `[i, j)` spell.
pub open spec fn digits_val(cs: Seq<char>, i: int, j: int) -> int
    decreases j - i,
{
    if j <= i {
        0
    } else {
        digits_val(cs, i, j - 1) * 10 + (cs[j - 1] as u32 - 48)
    }
}

pub open spec fn pow10(n: nat) -> int
    decreases n,
{
    if n == 0 {
        1
    } else {
        10 * pow10((n - 1) as nat)
    }
}

/// The token stream of the characters from position `i` on, or a failure
/// on a character that fits no token class or an integer literal beyond 18
/// significant digits.
pub open spec fn spec_tokenize(cs: Seq<char>, i: int) -> Result<Seq<TokenV>, ()>
    decreases cs.len() - i,
{
    if i < 0 {
        Err(())
    } else if i >= cs.len() {
        Ok(Seq::empty())
    } else if is_space(cs[i]) {
        spec_tokenize(cs, i + 1)
    } else if is_ident_start(cs[i]) {
        let j = ident_end(cs, i);
        if i < j <= cs.len() {
            match spec_tokenize(cs, j) {
                Ok(rest) => Ok(seq![TokenV::Ident(cs.subrange(i, j))] + rest),
                Err(e) => Err(e),
            }
        } else {
            Err(())
        }
    } else if is_digit(cs[i]) {
        let j = digits_end(cs, i);
        let k = zeros_end(cs, i, j);
        if !(i < j <= cs.len()) {
            Err(())
        } else if j - k > 18 {
            Err(())
        } else {
            match spec_tokenize(cs, j) {
                Ok(rest) => Ok(seq![TokenV::Int(digits_val(cs, k, j) as i64)] + rest),
                Err(e) => Err(e),
            }
        }
    } else if is_punct(cs[i]) {
        match spec_tokenize(cs, i + 1) {
            Ok(rest) => Ok(seq![TokenV::Punct(cs[i])] + rest),
            Err(e) => Err(e),
        }
    } else {
        Err(())
    }
}

/// Every character the digit scan passed over is a digit.
pub proof fn lemma_digits_range(cs: Seq<char>, i: int)
    requires
        0 <= i <= cs.len(),
    ensures
        forall|q: int| i <= q < digits_end(cs, i) ==> is_digit(cs[q]),
    decreases cs.len() - i,
{
    if i < cs.len() && is_digit(cs[i]) {
        lemma_digits_range(cs, i + 1);
    }
}

fn is_space_x(c: char) -> (r: bool)
    ensures
        r == is_space(c),
{
    c == ' ' || c == '\t' || c == '\n' || c == '\r'
}

fn is_digit_x(c: char) -> (r: bool)
    ensures
        r == is_digit(c),
{
    let u = c as u32;
    48 <= u && u <= 57
}

fn is_ident_start_x(c: char) -> (r: bool)
    ensures
        r == is_ident_start(c),
{
    let u = c as u32;
    (97 <= u && u <= 122) || (65 <= u && u <= 90) || c == '_'
}

fn is_ident_char_x(c: char) -> (r: bool)
    ensures
        r == is_ident_char(c),
{
    is_ident_start_x(c) || is_digit_x(c)
}

fn is_punct_x(c: char) -> (r: bool)
    ensures
        r == is_punct(c),
{
    c == '^' || c == '{' || c == '}' || c == ',' || c == ':' || c == '(' || c == ')' || c == ';'
}

/// Split source text into tokens; text is rejected unless it is ASCII and
/// every character belongs to a token of the grammar.
pub fn tokenize(src: &str) -> (r: Result<Vec<Token>, ParseError>)
    ensures
        match r {
            Ok(ts) => src.is_ascii() && spec_tokenize(src@, 0) == Ok::<_, ()>(tokens_view(ts@)),
            Err(_) => !src.is_ascii() || spec_tokenize(src@, 0) is Err,
        },
{
    if !src.is_ascii() {
        return Err(ParseError { msg: "source text must be ASCII".to_owned() });
    }
    tokenize_from(src, 0)
}

fn tokenize_from(src: &str, i: usize) -> (r: Result<Vec<Token>, ParseError>)
    requires
        src.is_ascii(),
        i <= src@.len(),
    ensures
        match r {
            Ok(ts) => spec_tokenize(src@, i as int) == Ok::<_, ()>(tokens_view(ts@)),
            Err(_) => spec_tokenize(src@, i as int) is Err,
        },
    decreases src@.len() - i,
{
    let n = src.unicode_len();
    if i >= n {
        let out: Vec<Token> = Vec::new();
        proof {
            assert(tokens_view(out@) =~= Seq::<TokenV>::empty());
        }
        return Ok(out);
    }
    let c = src.get_char(i);
    if is_space_x(c) {
        return tokenize_from(src, i + 1);
    }
    if is_ident_start_x(c) {
        let mut j: usize = i;
        while j < n && is_ident_char_x(src.get_char(j))
            invariant
                src.is_ascii(),
                i <= j <= n,
                n == src@.len(),
                ident_end(src@, i as int) == ident_end(src@, j as int),
            decreases n - j,
        {
            j += 1;
        }
        proof {
            assert(ident_end(src@, j as int) == j);
        }
        let word = src.substring_char(i, j).to_owned();
        match tokenize_from(src, j) {
            Ok(rest) => {
                let tok = Token::Ident(word);
                return Ok(push_front(tok, rest));
            },
            Err(e) => {
                return Err(e);
            },
        }
    }
    if is_digit_x(c) {
        let mut j: usize = i;
        while j < n && is_digit_x(src.get_char(j))
            invariant
                src.is_ascii(),
                i <= j <= n,
                n == src@.len(),
                digits_end(src@, i as int) == digits_end(src@, j as int),
            decreases n - j,
        {
            j += 1;
        }
        proof {
            assert(digits_end(src@, j as int) == j);
        }
        let mut k: usize = i;
        while k < j && src.get_char(k) == '0'
            invariant
                src.is_ascii(),
                i <= k <= j,
                j <= src@.len(),
                zeros_end(src@, i as int, j as int) == zeros_end(src@, k as int, j as int),
            decreases j - k,
        {
            k += 1;
        }
        proof {
            assert(zeros_end(src@, k as int, j as int) == k);
        }
        if j - k > 18 {
            return Err(ParseError { msg: "integer literal is too large".to_owned() });
        }
        proof {
            lemma_digits_range(src@, i as int);
        }
        let mut acc: u64 = 0;
        let mut p: usize = k;
        while p < j
            invariant
                src.is_ascii(),
                k <= p <= j,
                j <= src@.len(),
                j - k <= 18,
                n == src@.len(),
                j == digits_end(src@, i as int),
                0 <= i <= k,
                forall|q: int| i <= q < j ==> is_digit(src@[q]),
                acc == digits_val(src@, k as int, p as int),
                acc <= pow10((p - k) as nat) - 1,
            decreases j - p,
        {
            let d = src.get_char(p);
            proof {
                assert(is_digit(src@[p as int]));
            }
            let dv = (d as u32) - 48;
            proof {
                lemma_pow10_18();
                lemma_pow10_mono((p - k) as nat, 17);
                assert(acc * 10 + dv <= (pow10((p - k) as nat) - 1) * 10 + 9) by (nonlinear_arith)
                    requires
                        acc <= pow10((p - k) as nat) - 1,
                        dv <= 9,
                        pow10((p - k) as nat) >= 1,
                ;
                assert((pow10((p - k) as nat) - 1) * 10 + 9 == pow10((p - k + 1) as nat) - 1);
            }
            acc = acc * 10 + (dv as u64);
            p += 1;
        }
        proof {
            lemma_pow10_18();
            lemma_pow10_mono((j - k) as nat, 18);
            assert(acc <= pow10(18) - 1);
        }
        let value = acc as i64;
        match tokenize_from(src, j) {
            Ok(rest) => {
                return Ok(push_front(Token::Int(value), rest));
            },
            Err(e) => {
                return Err(e);
            },
        }
    }
    if is_punct_x(c) {
        match tokenize_from(src, i + 1) {
            Ok(rest) => {
                return Ok(push_front(Token::Punct(c), rest));
            },
            Err(e) => {
                return Err(e);
            },
        }
    }
    Err(ParseError { msg: "unrecognized character".to_owned() })
}

fn push_front(t: Token, rest: Vec<Token>) -> (r: Vec<Token>)
    ensures
        tokens_view(r@) == seq![t@] + tokens_view(rest@),
{
    let ghost rv = rest@;
    let mut out: Vec<Token> = Vec::new();
    out.push(t);
    proof {
        lemma_tokens_view(rest@);
    }
    let n = rest.len();
    let ghost t0 = t;
    let mut i: usize = 0;
    while i < n
        invariant
            rest@ == rv,
            n == rv.len(),
            i <= n,
            out@.len() == i + 1,
            out@[0]@ == t0@,
            forall|q: int| 0 <= q < i ==> out@[q + 1]@ == rv[q]@,
        decreases n - i,
    {
        let item = rest[i].clone_token();
        out.push(item);
        i += 1;
    }
    proof {
        lemma_tokens_view(out@);
        lemma_tokens_view(rv);
        assert(tokens_view(out@) =~= seq![t0@] + tokens_view(rv));
    }
    out
}

impl Token {
    /// A clone is structurally identical to the original.
    pub fn clone_token(&self) -> (r: Token)
        ensures
            r@ == self@,
    {
        match self {
            Token::Ident(s) => Token::Ident(s.clone()),
            Token::Int(v) => Token::Int(*v),
            Token::Punct(c) => Token::Punct(*c),
        }
    }
}

/// The symbols' texts.
pub open spec fn syms_view(symbols: Seq<String>) -> Seq<Seq<char>>
    decreases symbols,
{
    if symbols.len() == 0 {
        Seq::empty()
    } else {
        syms_view(symbols.drop_last()).push(symbols.last()@)
    }
}

pub proof fn lemma_syms_view(symbols: Seq<String>)
    ensures
        syms_view(symbols).len() == symbols.len(),
        forall|i: int| 0 <= i < symbols.len() ==> syms_view(symbols)[i] == symbols[i]@,
    decreases symbols,
{
    if symbols.len() > 0 {
        lemma_syms_view(symbols.drop_last());
    }
}

/// Where the current item's symbols begin: everything after the last `{`
/// or `,` symbol.
pub open spec fn tail_start(symbols: Seq<Seq<char>>) -> int
    decreases symbols,
{
    if symbols.len() == 0 {
        0
    } else if symbols.last() == "{"@ || symbols.last() == ","@ {
        symbols.len() as int
    } else {
        tail_start(symbols.drop_last())
    }
}

/// The incremental parse step of a `native` block: given the symbols seen
/// so far and the next token's text, the token class expected next, or
/// nothing when the declaration is complete. The symbols of the current
/// item are reconstructed from the tokens since the last `{` or `,`.
pub open spec fn spec_parse_step(symbols: Seq<Seq<char>>, lh: Seq<char>) -> Option<Seq<char>>
    recommends
        symbols.len() >= 1,
{
    if symbols.len() <= 1 {
        Some("$ident$"@)
    } else if symbols.len() == 2 {
        Some("{"@)
    } else {
        let ts = tail_start(symbols);
        let flen = symbols.len() - ts;
        if flen == 0 {
            if lh == "^"@ {
                Some("$symbol$"@)
            } else {
                Some("$ident$"@)
            }
        } else {
            let kw = symbols[ts];
            if flen == 1 {
                if kw == "^"@ {
                    Some("$int$"@)
                } else {
                    Some(":"@)
                }
            } else if flen == 2 && kw != "^"@ {
                Some("$expr$"@)
            } else {
                if lh == "}"@ {
                    Some("}"@)
                } else if lh == ";"@ {
                    None
                } else {
                    Some(","@)
                }
            }
        }
    }
}

/// The incremental parse step, as the host's parser calls it: from the
/// symbols accumulated so far and the next token, what to expect next;
/// an empty result means the declaration is complete.
pub fn parse_native(symbols: &Vec<String>, look_ahead: &str) -> (r: Result<
    Option<String>,
    ParseError,
>)
    requires
        symbols@.len() >= 1,
    ensures
        r is Ok,
        match r {
            Ok(Some(s)) => spec_parse_step(syms_view(symbols@), look_ahead@) == Some(s@),
            Ok(None) => spec_parse_step(syms_view(symbols@), look_ahead@) is None,
            Err(_) => false,
        },
{
    proof {
        lemma_syms_view(symbols@);
    }
    let ghost sv = syms_view(symbols@);
    if symbols.len() == 1 {
        return Ok(Some("$ident$".to_owned()));
    }
    if symbols.len() == 2 {
        return Ok(Some("{".to_owned()));
    }
    let brace = "{".to_owned();
    let comma = ",".to_owned();
    let caret = "^".to_owned();
    let lh = look_ahead.to_owned();
    let n = symbols.len();
    let mut ts: usize = n;
    proof {
        assert(sv.subrange(0, n as int) =~= sv);
    }
    while ts > 0 && !(symbols[ts - 1] == brace) && !(symbols[ts - 1] == comma)
        invariant
            brace@ == "{"@,
            comma@ == ","@,
            sv == syms_view(symbols@),
            sv.len() == symbols@.len(),
            forall|i: int| 0 <= i < symbols@.len() ==> sv[i] == symbols@[i]@,
            n == symbols@.len(),
            0 <= ts <= n,
            tail_start(sv) == tail_start(sv.subrange(0, ts as int)),
        decreases ts,
    {
        proof {
            assert(sv.subrange(0, ts as int).drop_last() =~= sv.subrange(0, ts as int - 1));
            assert(sv.subrange(0, ts as int).last() == sv[ts as int - 1]);
        }
        ts -= 1;
    }
    proof {
        if ts > 0 {
            assert(sv.subrange(0, ts as int).last() == sv[ts as int - 1]);
        }
        assert(tail_start(sv) == ts);
    }
    let flen = n - ts;
    if flen == 0 {
        if lh == caret {
            return Ok(Some("$symbol$".to_owned()));
        } else {
            return Ok(Some("$ident$".to_owned()));
        }
    }
    let kw_is_pad = symbols[ts] == caret;
    if flen == 1 {
        if kw_is_pad {
            return Ok(Some("$int$".to_owned()));
        } else {
            return Ok(Some(":".to_owned()));
        }
    }
    if flen == 2 && !kw_is_pad {
        return Ok(Some("$expr$".to_owned()));
    }
    let close = "}".to_owned();
    let semi = ";".to_owned();
    if lh == close {
        Ok(Some("}".to_owned()))
    } else if lh == semi {
        Ok(None)
    } else {
        Ok(Some(",".to_owned()))
    }
}

/// A variable scope: named immutable bindings, later bindings shadowing
/// earlier ones of the same name.
pub struct Scope(pub Vec<(String, Type)>);

pub open spec fn scope_view(entries: Seq<(String, Type)>) -> Seq<(Seq<char>, TypeV)>
    decreases entries,
{
    if entries.len() == 0 {
        Seq::empty()
    } else {
        scope_view(entries.drop_last()).push((entries.last().0@, type_view(entries.last().1)))
    }
}

pub proof fn lemma_scope_view(entries: Seq<(String, Type)>)
    ensures
        scope_view(entries).len() == entries.len(),
        forall|i: int|
            0 <= i < entries.len() ==> scope_view(entries)[i] == (
                entries[i].0@,
                type_view(entries[i].1),
            ),
    decreases entries,
{
    if entries.len() > 0 {
        lemma_scope_view(entries.drop_last());
    }
}

impl View for Scope {
    type V = Seq<(Seq<char>, TypeV)>;

    open spec fn view(&self) -> Seq<(Seq<char>, TypeV)> {
        scope_view(self.0@)
    }
}

/// The binding a name refers to: the most recent one of that name.
pub open spec fn scope_lookup(sv: Seq<(Seq<char>, TypeV)>, name: Seq<char>) -> Option<TypeV>
    decreases sv,
{
    if sv.len() == 0 {
        None
    } else if sv.last().0 == name {
        Some(sv.last().1)
    } else {
        scope_lookup(sv.drop_last(), name)
    }
}

/// Every bound descriptor is well formed.
pub open spec fn scope_wf(sv: Seq<(Seq<char>, TypeV)>) -> bool {
    forall|i: int| 0 <= i < sv.len() ==> wf_v(#[trigger] sv[i].1)
}

impl Scope {
    pub fn new() -> (s: Self)
        ensures
            s@ == Seq::<(Seq<char>, TypeV)>::empty(),
    {
        let s = Scope(Vec::new());
        proof {
            assert(s@ =~= Seq::<(Seq<char>, TypeV)>::empty());
        }
        s
    }

    /// Bind an immutable named value.
    pub fn push_constant(&mut self, name: String, ty: Type)
        ensures
            final(self)@ == old(self)@.push((name@, type_view(ty))),
    {
        let ghost nv = name@;
        let ghost tv = type_view(ty);
        let ghost before = self.0@;
        self.0.push((name, ty));
        proof {
            assert(self.0@.drop_last() =~= before);
        }
    }

    /// Look a name up: the most recent binding wins.
    pub fn get(&self, name: &String) -> (r: Option<&Type>)
        ensures
            match r {
                Some(t) => scope_lookup(self@, name@) == Some(t@),
                None => scope_lookup(self@, name@) is None,
            },
    {
        proof {
            lemma_scope_view(self.0@);
        }
        let ghost sv = scope_view(self.0@);
        let n = self.0.len();
        let mut i: usize = n;
        proof {
            assert(sv.subrange(0, n as int) =~= sv);
        }
        while i > 0
            invariant
                sv == scope_view(self.0@),
                sv.len() == self.0@.len(),
                n == self.0@.len(),
                forall|j: int|
                    0 <= j < self.0@.len() ==> sv[j] == (self.0@[j].0@, type_view(self.0@[j].1)),
                0 <= i <= n,
                scope_lookup(sv, name@) == scope_lookup(sv.subrange(0, i as int), name@),
            decreases i,
        {
            proof {
                assert(sv.subrange(0, i as int).last() == sv[i as int - 1]);
                assert(sv.subrange(0, i as int).drop_last() =~= sv.subrange(0, i as int - 1));
            }
            if self.0[i - 1].0 == *name {
                return Some(&self.0[i - 1].1);
            }
            i -= 1;
        }
        proof {
            assert(sv.subrange(0, 0) =~= Seq::<(Seq<char>, TypeV)>::empty());
        }
        None
    }
}

/// A type expression failed to evaluate to a usable descriptor; when the
/// failure belongs to one field of a block, `field` names that field.
#[derive(Debug)]
pub struct EvalError {
    pub msg: String,
    pub field: Option<String>,
}

/// A failed declaration: either the block is malformed, or a type
/// expression did not resolve.
#[derive(Debug)]
pub enum NativeError {
    Parse(ParseError),
    Eval(EvalError),
}

/// One item of a block: a padding directive, or a named field whose type
/// expression has been evaluated.
pub enum Item {
    Pad(i64),
    Named(String, Type),
}

/// Mathematical form of a block item.
pub enum ItemV {
    Pad(i64),
    Named(Seq<char>, TypeV),
}

impl View for Item {
    type V = ItemV;

    open spec fn view(&self) -> ItemV {
        match self {
            Item::Pad(v) => ItemV::Pad(*v),
            Item::Named(n, t) => ItemV::Named(n@, type_view(*t)),
        }
    }
}

pub open spec fn items_view(items: Seq<Item>) -> Seq<ItemV>
    decreases items,
{
    if items.len() == 0 {
        Seq::empty()
    } else {
        items_view(items.drop_last()).push(items.last()@)
    }
}

pub proof fn lemma_items_view(items: Seq<Item>)
    ensures
        items_view(items).len() == items.len(),
        forall|i: int| 0 <= i < items.len() ==> items_view(items)[i] == items[i]@,
    decreases items,
{
    if items.len() > 0 {
        lemma_items_view(items.drop_last());
    }
}

/// Every named item's descriptor is well formed.
pub open spec fn items_wf(iv: Seq<ItemV>) -> bool {
    forall|i: int|
        0 <= i < iv.len() ==> match #[trigger] iv[i] {
            ItemV::Named(_, t) => wf_v(t),
            ItemV::Pad(_) => true,
        }
}

/// The padding step a literal advances the offset by: the literal's
/// unsigned magnitude, taken at 32 bits.
pub open spec fn pad_step(v: i64) -> u32 {
    crate::memory::mag(v) as u32
}

/// Folding a block's items into a field map: a padding directive advances
/// the running offset by its magnitude; a named field is keyed by the
/// running offset (silently replacing a field already keyed there) and
/// advances the offset by its type's size. An offset that would leave 32
/// bits fails the whole compilation.
pub open spec fn spec_compile(items: Seq<ItemV>, off: u32, fs: Seq<(u32, FieldV)>) -> Result<
    Seq<(u32, FieldV)>,
    (),
>
    decreases items,
{
    if items.len() == 0 {
        Ok(fs)
    } else {
        match items[0] {
            ItemV::Pad(v) => if off + pad_step(v) > u32::MAX {
                Err(())
            } else {
                spec_compile(items.drop_first(), (off + pad_step(v)) as u32, fs)
            },
            ItemV::Named(name, t) => if off + size_v(t) > u32::MAX {
                Err(())
            } else {
                spec_compile(
                    items.drop_first(),
                    (off + size_v(t)) as u32,
                    spec_insert(fs, off, FieldV { name, ty: t }),
                )
            },
        }
    }
}

/// When every existing offset is at most `off`, inserting at `off` puts
/// the field last, and the map stays sorted and bounded by `off`.
pub proof fn lemma_insert_at_end(fs: Seq<(u32, FieldV)>, off: u32, f: FieldV)
    requires
        fields_sorted(fs),
        forall|j: int| 0 <= j < fs.len() ==> (#[trigger] fs[j]).0 <= off,
    ensures
        spec_insert(fs, off, f).len() >= 1,
        spec_insert(fs, off, f).last() == (off, f),
        fields_sorted(spec_insert(fs, off, f)),
        forall|j: int| 0 <= j < spec_insert(fs, off, f).len() ==> (#[trigger] spec_insert(
            fs,
            off,
            f,
        )[j]).0 <= off,
        struct_size_v(spec_insert(fs, off, f)) == off + size_v(f.ty),
        (forall|j: int| 0 <= j < fs.len() ==> wf_v(#[trigger] fs[j].1.ty)) && wf_v(f.ty)
            ==> forall|j: int|
            0 <= j < spec_insert(fs, off, f).len() ==> wf_v(#[trigger] spec_insert(fs, off, f)[j].1.ty),
{
    crate::native::lemma_insert_pos(fs, off);
    lemma_insert_sorted(fs, off, f);
    let p = crate::native::insert_pos(fs, off);
    let out = spec_insert(fs, off, f);
    if p < fs.len() && fs[p].0 == off {
        assert(p == fs.len() - 1) by {
            if p < fs.len() - 1 {
                assert(fs[fs.len() - 1].0 > fs[p].0);
                assert(fs[fs.len() - 1].0 <= off);
            }
        }
        assert(out.last() == (off, f));
    } else {
        assert(p == fs.len()) by {
            if p < fs.len() {
                assert(fs[p].0 >= off);
                assert(fs[p].0 <= off);
                assert(fs[p].0 == off);
            }
        }
        assert(out.last() == (off, f));
    }
}

pub proof fn lemma_items_wf_push(before: Seq<Item>, it: Item)
    requires
        items_wf(items_view(before)),
        match it@ {
            ItemV::Named(_, t) => wf_v(t),
            ItemV::Pad(_) => true,
        },
    ensures
        items_wf(items_view(before.push(it))),
{
    lemma_items_view(before);
    lemma_items_view(before.push(it));
    assert forall|j: int| 0 <= j < before.push(it).len() implies (match #[trigger] items_view(
        before.push(it),
    )[j] {
        ItemV::Named(_, t) => wf_v(t),
        ItemV::Pad(_) => true,
    }) by {
        if j < before.len() {
            assert(before.push(it)[j] == before[j]);
            assert(items_view(before)[j] == before[j]@);
        } else {
            assert(before.push(it)[j] == it);
        }
    }
}

/// Compile a block's items into a struct descriptor and bind it: the
/// finished struct, wrapped as a descriptor, is pushed into the scope under
/// the block's name. Nothing is bound when any item fails.
pub fn implement_native(name: String, items: &Vec<Item>, scope: &mut Scope) -> (r: Result<
    Type,
    NativeError,
>)
    requires
        items_wf(items_view(items@)),
    ensures
        match r {
            Ok(t) => {
                &&& items@.len() > 0
                &&& spec_compile(items_view(items@), 0, Seq::empty()) is Ok
                &&& t@ == TypeV::Struct(spec_compile(items_view(items@), 0, Seq::empty())->Ok_0)
                &&& wf_v(t@)
                &&& final(scope)@ == old(scope)@.push((name@, t@))
            },
            Err(_) => {
                &&& (items@.len() == 0 || spec_compile(items_view(items@), 0, Seq::empty()) is Err)
                &&& final(scope)@ == old(scope)@
            },
        },
{
    proof {
        lemma_items_view(items@);
    }
    if items.len() == 0 {
        return Err(NativeError::Eval(EvalError { msg: "a native block may not be empty".to_owned(), field: None }));
    }
    let ghost iv = items_view(items@);
    let mut native = Struct(Vec::new());
    let mut offset: u32 = 0;
    let mut i: usize = 0;
    proof {
        assert(iv.skip(0) =~= iv);
        assert(native@ =~= Seq::<(u32, FieldV)>::empty());
    }
    while i < items.len()
        invariant
            *scope == *old(scope),
            iv == items_view(items@),
            iv.len() == items@.len(),
            forall|j: int| 0 <= j < items@.len() ==> iv[j] == items@[j]@,
            items_wf(iv),
            i <= items@.len(),
            fields_sorted(native@),
            forall|j: int| 0 <= j < native@.len() ==> (#[trigger] native@[j]).0 <= offset,
            forall|j: int| 0 <= j < native@.len() ==> wf_v(#[trigger] native@[j].1.ty),
            native@.len() > 0 ==> struct_size_v(native@) <= offset,
            spec_compile(iv, 0, Seq::empty()) == spec_compile(iv.skip(i as int), offset, native@),
        decreases items@.len() - i,
    {
        let ghost before = iv.skip(i as int);
        proof {
            assert(before[0] == iv[i as int]);
            assert(before.drop_first() =~= iv.skip(i as int + 1));
        }
        match &items[i] {
            Item::Pad(v) => {
                let adv = #[verifier::truncate] (crate::memory::addr(*v) as u32);
                if adv > u32::MAX - offset {
                    return Err(
                        NativeError::Eval(
                            EvalError { msg: "padding pushes the offset past its range".to_owned(), field: None },
                        ),
                    );
                }
                offset = offset + adv;
            },
            Item::Named(nm, t) => {
                let sz = t.size();
                if sz > u32::MAX - offset {
                    return Err(
                        NativeError::Eval(
                            EvalError {
                                msg: "a field pushes the offset past its range".to_owned(),
                                field: Some(nm.clone()),
                            },
                        ),
                    );
                }
                let ghost fs0 = native@;
                let fld = Field::new(nm.clone(), t.clone());
                proof {
                    lemma_insert_at_end(fs0, offset, fld@);
                }
                native.insert(offset, fld);
                offset = offset + sz;
            },
        }
        i += 1;
    }
    proof {
        assert(iv.skip(items@.len() as int) =~= Seq::<ItemV>::empty());
        assert(spec_compile(iv, 0, Seq::empty()) == Ok::<_, ()>(native@));
        assert(struct_wf_v(native@));
        assert(wf_v(TypeV::Struct(native@)));
    }
    let result = Type::Struct(native);
    let bound = result.clone();
    scope.push_constant(name, bound);
    Ok(result)
}

/// A binding found in a well-formed scope is well formed.
pub proof fn lemma_scope_lookup_wf(sv: Seq<(Seq<char>, TypeV)>, name: Seq<char>)
    requires
        scope_wf(sv),
    ensures
        match scope_lookup(sv, name) {
            Some(t) => wf_v(t),
            None => true,
        },
    decreases sv,
{
    if sv.len() > 0 {
        assert(sv[sv.len() - 1] == sv.last());
        if sv.last().0 != name {
            assert forall|i: int| 0 <= i < sv.drop_last().len() implies wf_v(
                #[trigger] sv.drop_last()[i].1,
            ) by {
                assert(sv.drop_last()[i] == sv[i]);
            }
            lemma_scope_lookup_wf(sv.drop_last(), name);
        }
    }
}

fn punct_text(c: char) -> (r: String)
    ensures
        r@ == (if is_punct(c) {
            seq![c]
        } else {
            Seq::<char>::empty()
        }),
{
    if c == '^' {
        let s = "^".to_owned();
        proof {
            reveal_strlit("^");
            assert(s@ =~= seq!['^']);
        }
        s
    } else if c == '{' {
        let s = "{".to_owned();
        proof {
            reveal_strlit("{");
            assert(s@ =~= seq!['{']);
        }
        s
    } else if c == '}' {
        let s = "}".to_owned();
        proof {
            reveal_strlit("}");
            assert(s@ =~= seq!['}']);
        }
        s
    } else if c == ',' {
        let s = ",".to_owned();
        proof {
            reveal_strlit(",");
            assert(s@ =~= seq![',']);
        }
        s
    } else if c == ':' {
        let s = ":".to_owned();
        proof {
            reveal_strlit(":");
            assert(s@ =~= seq![':']);
        }
        s
    } else if c == '(' {
        let s = "(".to_owned();
        proof {
            reveal_strlit("(");
            assert(s@ =~= seq!['(']);
        }
        s
    } else if c == ')' {
        let s = ")".to_owned();
        proof {
            reveal_strlit(")");
            assert(s@ =~= seq![')']);
        }
        s
    } else if c == ';' {
        let s = ";".to_owned();
        proof {
            reveal_strlit(";");
            assert(s@ =~= seq![';']);
        }
        s
    } else {
        let s = "".to_owned();
        proof {
            reveal_strlit("");
            assert(s@ =~= Seq::<char>::empty());
        }
        s
    }
}

/// The text the parser compares a lookahead token against: an identifier's
/// own text, a stand-in for an integer literal, a punctuation mark's own
/// character.
pub open spec fn token_text_v(t: TokenV) -> Seq<char> {
    match t {
        TokenV::Ident(w) => w,
        TokenV::Int(_) => "0"@,
        TokenV::Punct(c) => if is_punct(c) {
            seq![c]
        } else {
            Seq::empty()
        },
    }
}

/// The text the parser compares a lookahead token against.
fn token_text(t: &Token) -> (r: String)
    ensures
        r@ == token_text_v(t@),
{
    match t {
        Token::Ident(s) => s.clone(),
        Token::Int(_) => "0".to_owned(),
        Token::Punct(c) => punct_text(*c),
    }
}

/// What parsing one type expression at token `pos` yields: the descriptor
/// and the position after it. Bare names are the ten fixed primitives or a
/// binding from the scope; constructor calls are the script-facing
/// `String(len)`, `WideString(len)`, `Pointer32(T)`, `Pointer64(T)` and
/// `Collection(T, count)`; lengths and counts are taken at 32 bits, and a
/// collection whose total size leaves 32 bits is refused.
pub open spec fn spec_parse_texpr(
    ts: Seq<TokenV>,
    pos: int,
    scope: Seq<(Seq<char>, TypeV)>,
) -> Result<(TypeV, int), ()>
    decreases ts.len() - pos,
{
    if pos < 0 || pos >= ts.len() {
        Err(())
    } else {
        match ts[pos] {
            TokenV::Ident(w) => {
                if !(pos + 1 < ts.len() && ts[pos + 1] == TokenV::Punct('(')) {
                    if w == "UInt8"@ {
                        Ok((TypeV::UInt8, pos + 1))
                    } else if w == "UInt16"@ {
                        Ok((TypeV::UInt16, pos + 1))
                    } else if w == "Int32"@ {
                        Ok((TypeV::Int32, pos + 1))
                    } else if w == "UInt32"@ {
                        Ok((TypeV::UInt32, pos + 1))
                    } else if w == "Fp32"@ {
                        Ok((TypeV::Fp32, pos + 1))
                    } else if w == "Address32"@ {
                        Ok((TypeV::Address32, pos + 1))
                    } else if w == "Int64"@ {
                        Ok((TypeV::Int64, pos + 1))
                    } else if w == "UInt64"@ {
                        Ok((TypeV::UInt64, pos + 1))
                    } else if w == "Fp64"@ {
                        Ok((TypeV::Fp64, pos + 1))
                    } else if w == "Address64"@ {
                        Ok((TypeV::Address64, pos + 1))
                    } else {
                        match scope_lookup(scope, w) {
                            Some(t) => Ok((t, pos + 1)),
                            None => Err(()),
                        }
                    }
                } else if w == "String"@ || w == "WideString"@ {
                    let a = pos + 2;
                    if a < ts.len() && ts[a] is Int {
                        let v = ts[a]->Int_0;
                        if a + 1 < ts.len() && ts[a + 1] == TokenV::Punct(')') {
                            if w == "String"@ {
                                Ok((TypeV::Text(v as u32), a + 2))
                            } else {
                                Ok((TypeV::WideText(v as u32), a + 2))
                            }
                        } else {
                            Err(())
                        }
                    } else {
                        Err(())
                    }
                } else if w == "Pointer32"@ || w == "Pointer64"@ {
                    match spec_parse_texpr(ts, pos + 2, scope) {
                        Ok((inner, mid)) => if mid < ts.len() && ts[mid] == TokenV::Punct(')') {
                            if w == "Pointer32"@ {
                                Ok((TypeV::Pointer32(Box::new(inner)), mid + 1))
                            } else {
                                Ok((TypeV::Pointer64(Box::new(inner)), mid + 1))
                            }
                        } else {
                            Err(())
                        },
                        Err(e) => Err(e),
                    }
                } else if w == "Collection"@ {
                    match spec_parse_texpr(ts, pos + 2, scope) {
                        Ok((el, mid)) => if mid < ts.len() && ts[mid] == TokenV::Punct(',') && mid
                            + 1 < ts.len() && ts[mid + 1] is Int {
                            let n = ts[mid + 1]->Int_0 as u32;
                            if mid + 2 < ts.len() && ts[mid + 2] == TokenV::Punct(')') {
                                if n != 0 && size_v(el) > u32::MAX as int / n as int {
                                    Err(())
                                } else {
                                    Ok((TypeV::Collection(Box::new(el), n), mid + 3))
                                }
                            } else {
                                Err(())
                            }
                        } else {
                            Err(())
                        },
                        Err(e) => Err(e),
                    }
                } else {
                    Err(())
                }
            },
            _ => Err(()),
        }
    }
}

/// Parse one type expression of the surface syntax, starting at token
/// `pos`: a bare name (a fixed primitive or a bound descriptor), or a
/// constructor call `Text(len)`, `WideText(len)`, `Pointer32(T)`,
/// `Pointer64(T)`, `Collection(T, count)` written with the script-facing
/// names. Returns the descriptor and the position after the expression.
pub fn parse_type_expr(tokens: &Vec<Token>, pos: usize, scope: &Scope) -> (r: Result<
    (Type, usize),
    NativeError,
>)
    requires
        pos <= tokens@.len(),
        scope_wf(scope@),
    ensures
        match r {
            Ok(p) => {
                &&& spec_parse_texpr(tokens_view(tokens@), pos as int, scope@) == Ok::<_, ()>(
                    (p.0@, p.1 as int),
                )
                &&& wf_v(p.0@)
                &&& pos < p.1 <= tokens@.len()
            },
            Err(_) => spec_parse_texpr(tokens_view(tokens@), pos as int, scope@) is Err,
        },
    decreases tokens@.len() - pos,
{
    proof {
        lemma_tokens_view(tokens@);
    }
    if pos >= tokens.len() {
        return Err(
            NativeError::Parse(ParseError { msg: "a type expression was expected".to_owned() }),
        );
    }
    let word = match &tokens[pos] {
        Token::Ident(w) => w.clone(),
        _ => {
            return Err(
                NativeError::Parse(
                    ParseError { msg: "a type expression must start with a name".to_owned() },
                ),
            );
        },
    };
    let mut after = pos + 1;
    let has_args = after < tokens.len() && matches!(&tokens[after], Token::Punct(c) if *c == '(');
    if !has_args {
        if word == "UInt8".to_owned() {
            return Ok((Type::UInt8, after));
        }
        if word == "UInt16".to_owned() {
            return Ok((Type::UInt16, after));
        }
        if word == "Int32".to_owned() {
            return Ok((Type::Int32, after));
        }
        if word == "UInt32".to_owned() {
            return Ok((Type::UInt32, after));
        }
        if word == "Fp32".to_owned() {
            return Ok((Type::Fp32, after));
        }
        if word == "Address32".to_owned() {
            return Ok((Type::Address32, after));
        }
        if word == "Int64".to_owned() {
            return Ok((Type::Int64, after));
        }
        if word == "UInt64".to_owned() {
            return Ok((Type::UInt64, after));
        }
        if word == "Fp64".to_owned() {
            return Ok((Type::Fp64, after));
        }
        if word == "Address64".to_owned() {
            return Ok((Type::Address64, after));
        }
        proof {
            lemma_scope_lookup_wf(scope@, word@);
        }
        match scope.get(&word) {
            Some(t) => {
                return Ok((t.clone(), after));
            },
            None => {
                return Err(
                    NativeError::Eval(
                        EvalError { msg: "the name does not resolve to a descriptor".to_owned(), field: None },
                    ),
                );
            },
        }
    }
    // A constructor call: the token after the name is `(`.
    after = after + 1;
    if word == "String".to_owned() || word == "WideString".to_owned() {
        if after >= tokens.len() {
            return Err(
                NativeError::Parse(ParseError { msg: "a length was expected".to_owned() }),
            );
        }
        let lenv = match &tokens[after] {
            Token::Int(v) => *v,
            _ => {
                return Err(
                    NativeError::Parse(
                        ParseError { msg: "a length must be an integer literal".to_owned() },
                    ),
                );
            },
        };
        let after2 = expect_close(tokens, after + 1)?;
        let len = #[verifier::truncate] (lenv as u32);
        if word == "String".to_owned() {
            return Ok((Type::Text(len), after2));
        } else {
            return Ok((Type::WideText(len), after2));
        }
    }
    if word == "Pointer32".to_owned() || word == "Pointer64".to_owned() {
        let (inner, mid) = parse_type_expr(tokens, after, scope)?;
        let after2 = expect_close(tokens, mid)?;
        if word == "Pointer32".to_owned() {
            return Ok((Type::Pointer32(Box::new(inner)), after2));
        } else {
            return Ok((Type::Pointer64(Box::new(inner)), after2));
        }
    }
    if word == "Collection".to_owned() {
        let (el, mid) = parse_type_expr(tokens, after, scope)?;
        if mid >= tokens.len() || !matches!(&tokens[mid], Token::Punct(c) if *c == ',') {
            return Err(
                NativeError::Parse(
                    ParseError { msg: "a collection needs an element count".to_owned() },
                ),
            );
        }
        let mid2 = mid + 1;
        if mid2 >= tokens.len() {
            return Err(
                NativeError::Parse(ParseError { msg: "an element count was expected".to_owned() }),
            );
        }
        let countv = match &tokens[mid2] {
            Token::Int(v) => *v,
            _ => {
                return Err(
                    NativeError::Parse(
                        ParseError { msg: "an element count must be an integer literal".to_owned() },
                    ),
                );
            },
        };
        let after2 = expect_close(tokens, mid2 + 1)?;
        let count = #[verifier::truncate] (countv as u32);
        let elsize = el.size();
        if count != 0 && elsize > u32::MAX / count {
            return Err(
                NativeError::Eval(
                    EvalError { msg: "the collection's total size leaves 32 bits".to_owned(), field: None },
                ),
            );
        }
        proof {
            if count != 0 {
                assert(count * size_v(el@) <= count * (u32::MAX / count)) by (nonlinear_arith)
                    requires
                        size_v(el@) <= u32::MAX / count,
                        count >= 1,
                ;
                assert(count * (u32::MAX / count) <= u32::MAX) by (nonlinear_arith)
                    requires
                        count >= 1,
                ;
            }
        }
        return Ok((Type::Collection(Box::new(el), count), after2));
    }
    Err(NativeError::Eval(EvalError { msg: "the constructor is not known".to_owned(), field: None }))
}

fn expect_close(tokens: &Vec<Token>, pos: usize) -> (r: Result<usize, NativeError>)
    requires
        pos <= tokens@.len(),
    ensures
        match r {
            Ok(p) => p == pos + 1 && p <= tokens@.len() && tokens@[pos as int]@ == TokenV::Punct(
                ')',
            ),
            Err(_) => !(pos < tokens@.len() && tokens@[pos as int]@ == TokenV::Punct(')')),
        },
{
    if pos < tokens.len() && matches!(&tokens[pos], Token::Punct(c) if *c == ')') {
        Ok(pos + 1)
    } else {
        Err(NativeError::Parse(ParseError { msg: "a closing parenthesis was expected".to_owned() }))
    }
}

/// The view of an optional name.
pub open spec fn optv(o: Option<String>) -> Option<Seq<char>> {
    match o {
        Some(s) => Some(s@),
        None => None,
    }
}

/// What finishing a complete declaration yields: the block must have a
/// name and at least one item, and its items must compile; the result is
/// the bound name and the compiled field map.
pub open spec fn spec_finish(items: Seq<ItemV>, name: Option<Seq<char>>) -> Result<
    (Seq<char>, Seq<(u32, FieldV)>),
    (),
> {
    match name {
        Some(nm) => if items.len() == 0 {
            Err(())
        } else {
            match spec_compile(items, 0, Seq::empty()) {
                Ok(fs) => Ok((nm, fs)),
                Err(_) => Err(()),
            }
        },
        None => Err(()),
    }
}

/// One declaration, replayed from the middle: the parse step is asked what
/// it expects after the symbols seen so far; the expected token class is
/// matched against the token at `pos` (the block's name is the first
/// identifier, later identifiers start a field, a type expression is
/// parsed and evaluated in place); when the step declares the block
/// complete, the collected items are compiled. Any mismatch is a failure.
pub open spec fn spec_drive(
    ts: Seq<TokenV>,
    syms: Seq<Seq<char>>,
    items: Seq<ItemV>,
    kw: Option<Seq<char>>,
    name: Option<Seq<char>>,
    pos: int,
    scope: Seq<(Seq<char>, TypeV)>,
) -> Result<(Seq<char>, Seq<(u32, FieldV)>), ()>
    decreases ts.len() - pos,
{
    if pos < 0 || pos > ts.len() {
        Err(())
    } else {
        let lh = if pos < ts.len() {
            token_text_v(ts[pos])
        } else {
            Seq::empty()
        };
        match spec_parse_step(syms, lh) {
            None => spec_finish(items, name),
            Some(exp) => if pos >= ts.len() {
                Err(())
            } else if exp == "$ident$"@ {
                match ts[pos] {
                    TokenV::Ident(w) => if syms.len() == 1 {
                        spec_drive(ts, syms.push(w), items, kw, Some(w), pos + 1, scope)
                    } else {
                        spec_drive(ts, syms.push(w), items, Some(w), name, pos + 1, scope)
                    },
                    _ => Err(()),
                }
            } else if exp == "$int$"@ {
                match ts[pos] {
                    TokenV::Int(v) => spec_drive(
                        ts,
                        syms.push("$int$"@),
                        items.push(ItemV::Pad(v)),
                        kw,
                        name,
                        pos + 1,
                        scope,
                    ),
                    _ => Err(()),
                }
            } else if exp == "$symbol$"@ {
                if ts[pos] == TokenV::Punct('^') {
                    spec_drive(ts, syms.push("^"@), items, kw, name, pos + 1, scope)
                } else {
                    Err(())
                }
            } else if exp == "$expr$"@ {
                match kw {
                    Some(k) => match spec_parse_texpr(ts, pos, scope) {
                        Ok((t, p2)) => if pos < p2 <= ts.len() {
                            spec_drive(
                                ts,
                                syms.push("$expr$"@),
                                items.push(ItemV::Named(k, t)),
                                None,
                                name,
                                p2,
                                scope,
                            )
                        } else {
                            Err(())
                        },
                        Err(_) => Err(()),
                    },
                    None => Err(()),
                }
            } else {
                if token_text_v(ts[pos]) == exp {
                    spec_drive(ts, syms.push(exp), items, kw, name, pos + 1, scope)
                } else {
                    Err(())
                }
            },
        }
    }
}

/// What one whole `native <Name> { ... }` declaration compiles to: the
/// text must be ASCII and is tokenized, the first token must be the
/// keyword, and the parse step is replayed over the rest; the result is
/// the bound name and the compiled field map.
pub open spec fn spec_decl(cs: Seq<char>, scope: Seq<(Seq<char>, TypeV)>) -> Result<
    (Seq<char>, Seq<(u32, FieldV)>),
    (),
> {
    if !vstd::utf8::is_ascii_chars(cs) {
        Err(())
    } else {
        spec_decl_tokens(cs, scope)
    }
}

pub open spec fn spec_decl_tokens(cs: Seq<char>, scope: Seq<(Seq<char>, TypeV)>) -> Result<
    (Seq<char>, Seq<(u32, FieldV)>),
    (),
> {
    match spec_tokenize(cs, 0) {
        Ok(ts) => if ts.len() >= 1 && ts[0] == TokenV::Ident("native"@) {
            spec_drive(ts, seq!["native"@], Seq::empty(), None, None, 1, scope)
        } else {
            Err(())
        },
        Err(_) => Err(()),
    }
}

/// Evaluate one `native <Name> { ... }` declaration: tokenize the text,
/// drive the incremental parse step over the tokens, evaluate each field's
/// type expression against the scope, compile the items, and bind the
/// finished struct descriptor under the block's name. The declaration
/// compiles exactly when `spec_decl` says so, to the struct it derives;
/// on any failure nothing is bound.
pub fn eval_native_decl(src: &str, scope: &mut Scope) -> (r: Result<Type, NativeError>)
    requires
        scope_wf(old(scope)@),
    ensures
        ({
            let d = spec_decl(src@, old(scope)@);
            match r {
                Ok(t) => {
                    &&& d is Ok
                    &&& wf_v(t@)
                    &&& t@ == TypeV::Struct(d->Ok_0.1)
                    &&& final(scope)@ == old(scope)@.push((d->Ok_0.0, t@))
                },
                Err(_) => d is Err && final(scope)@ == old(scope)@,
            }
        }),
        scope_wf(final(scope)@),
{
    let tokens = match tokenize(src) {
        Ok(ts) => ts,
        Err(e) => {
            return Err(NativeError::Parse(e));
        },
    };
    let ghost tv = tokens_view(tokens@);
    proof {
        lemma_tokens_view(tokens@);
    }
    if tokens.len() == 0 || !matches!(&tokens[0], Token::Ident(w) if *w == "native".to_owned()) {
        return Err(
            NativeError::Parse(
                ParseError { msg: "a declaration must start with its keyword".to_owned() },
            ),
        );
    }
    let mut symbols: Vec<String> = Vec::new();
    symbols.push("native".to_owned());
    let mut items: Vec<Item> = Vec::new();
    let mut block_name: Option<String> = None;
    let mut cur_kw: Option<String> = None;
    let mut pos: usize = 1;
    let mut done = false;
    proof {
        lemma_syms_view(symbols@);
        assert(syms_view(symbols@) =~= seq!["native"@]);
        assert(items_view(items@) =~= Seq::<ItemV>::empty());
    }
    while !done
        invariant
            *scope == *old(scope),
            scope_wf(scope@),
            tv == tokens_view(tokens@),
            tv.len() == tokens@.len(),
            forall|j: int| 0 <= j < tokens@.len() ==> tv[j] == tokens@[j]@,
            symbols@.len() >= 1,
            pos <= tokens@.len(),
            items_wf(items_view(items@)),
            !done ==> spec_decl(src@, old(scope)@) == spec_drive(
                tv,
                syms_view(symbols@),
                items_view(items@),
                optv(cur_kw),
                optv(block_name),
                pos as int,
                old(scope)@,
            ),
            done ==> spec_decl(src@, old(scope)@) == spec_finish(
                items_view(items@),
                optv(block_name),
            ),
        decreases tokens@.len() - pos + (if done {
            0int
        } else {
            1int
        }),
    {
        proof {
            lemma_syms_view(symbols@);
            lemma_items_view(items@);
        }
        let ghost sv0 = syms_view(symbols@);
        let ghost iv0 = items_view(items@);
        let lh = if pos < tokens.len() {
            token_text(&tokens[pos])
        } else {
            let e = "".to_owned();
            proof {
                reveal_strlit("");
                assert(e@ =~= Seq::<char>::empty());
            }
            e
        };
        let expected = match parse_native(&symbols, lh.as_str()) {
            Ok(e) => e,
            Err(e) => {
                return Err(NativeError::Parse(e));
            },
        };
        match expected {
            None => {
                done = true;
            },
            Some(exp) => {
                if pos >= tokens.len() {
                    return Err(
                        NativeError::Parse(
                            ParseError { msg: "the declaration ends too early".to_owned() },
                        ),
                    );
                }
                if exp == "$ident$".to_owned() {
                    let w = match &tokens[pos] {
                        Token::Ident(w) => w.clone(),
                        _ => {
                            return Err(
                                NativeError::Parse(
                                    ParseError { msg: "a name was expected".to_owned() },
                                ),
                            );
                        },
                    };
                    if symbols.len() == 1 {
                        block_name = Some(w.clone());
                    } else {
                        cur_kw = Some(w.clone());
                    }
                    symbols.push(w);
                    pos = pos + 1;
                    proof {
                        lemma_syms_view(symbols@);
                        assert(syms_view(symbols@) =~= sv0.push(tv[pos - 1]->Ident_0));
                    }
                } else if exp == "$int$".to_owned() {
                    let v = match &tokens[pos] {
                        Token::Int(v) => *v,
                        _ => {
                            return Err(
                                NativeError::Parse(
                                    ParseError {
                                        msg: "padding must be a constant literal".to_owned(),
                                    },
                                ),
                            );
                        },
                    };
                    let ghost before = items@;
                    items.push(Item::Pad(v));
                    proof {
                        assert(items@ == before.push(items@.last()));
                        lemma_items_wf_push(before, items@.last());
                        lemma_items_view(items@);
                        assert(items_view(items@) =~= iv0.push(ItemV::Pad(v)));
                    }
                    let marker = "$int$".to_owned();
                    symbols.push(marker);
                    pos = pos + 1;
                    proof {
                        lemma_syms_view(symbols@);
                        assert(syms_view(symbols@) =~= sv0.push("$int$"@));
                    }
                } else if exp == "$symbol$".to_owned() {
                    if !matches!(&tokens[pos], Token::Punct(c) if *c == '^') {
                        return Err(
                            NativeError::Parse(
                                ParseError { msg: "a marker was expected".to_owned() },
                            ),
                        );
                    }
                    symbols.push("^".to_owned());
                    pos = pos + 1;
                    proof {
                        lemma_syms_view(symbols@);
                        assert(syms_view(symbols@) =~= sv0.push("^"@));
                    }
                } else if exp == "$expr$".to_owned() {
                    let kw = match cur_kw {
                        Some(ref k) => k.clone(),
                        None => {
                            return Err(
                                NativeError::Parse(
                                    ParseError { msg: "a field name was expected".to_owned() },
                                ),
                            );
                        },
                    };
                    cur_kw = None;
                    let (ty, p2) = match parse_type_expr(&tokens, pos, scope) {
                        Ok(p) => p,
                        Err(e) => {
                            return Err(field_error(kw, e));
                        },
                    };
                    let ghost before = items@;
                    items.push(Item::Named(kw, ty));
                    proof {
                        assert(items@ == before.push(items@.last()));
                        lemma_items_wf_push(before, items@.last());
                        lemma_items_view(items@);
                        assert(items_view(items@) =~= iv0.push(items@.last()@));
                    }
                    let marker = "$expr$".to_owned();
                    symbols.push(marker);
                    pos = p2;
                    proof {
                        lemma_syms_view(symbols@);
                        assert(syms_view(symbols@) =~= sv0.push("$expr$"@));
                    }
                } else {
                    let actual = token_text(&tokens[pos]);
                    if !(actual == exp) {
                        return Err(
                            NativeError::Parse(
                                ParseError { msg: "the token was not expected here".to_owned() },
                            ),
                        );
                    }
                    symbols.push(actual);
                    pos = pos + 1;
                    proof {
                        lemma_syms_view(symbols@);
                        assert(syms_view(symbols@) =~= sv0.push(exp@));
                    }
                }
            },
        }
    }
    match block_name {
        Some(nm) => implement_native(nm, &items, scope),
        None => Err(
            NativeError::Parse(ParseError { msg: "the declaration has no name".to_owned() }),
        ),
    }
}

/// Name the field whose type expression failed: the failure becomes an
/// evaluation error that carries the original message and identifies the
/// offending field.
fn field_error(kw: String, e: NativeError) -> (r: NativeError)
    ensures
        r matches NativeError::Eval(ev) && ev.field matches Some(f) && f@ == kw@ && ev.msg@ == (
        match e {
            NativeError::Parse(p) => p.msg@,
            NativeError::Eval(v) => v.msg@,
        }),
{
    match e {
        NativeError::Parse(p) => NativeError::Eval(EvalError { msg: p.msg, field: Some(kw) }),
        NativeError::Eval(v) => NativeError::Eval(EvalError { msg: v.msg, field: Some(kw) }),
    }
}


pub proof fn lemma_pow10_mono(a: nat, b: nat)
    requires
        a <= b,
    ensures
        pow10(a) <= pow10(b),
        pow10(a) >= 1,
    decreases b,
{
    if a == b {
        lemma_pow10_pos(a);
    } else {
        lemma_pow10_mono(a, (b - 1) as nat);
    }
}

pub proof fn lemma_pow10_pos(n: nat)
    ensures
        pow10(n) >= 1,
    decreases n,
{
    if n > 0 {
        lemma_pow10_pos((n - 1) as nat);
    }
}

pub proof fn lemma_pow10_18()
    ensures
        pow10(18) == 1000000000000000000,
        pow10(17) == 100000000000000000,
{
    reveal_with_fuel(pow10, 20);
}

} // verus!