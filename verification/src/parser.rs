//! Typed protocol values and the text codec for them.
//!
//! The wire grammar is a whitespace-separated sequence of literals:
//! `true` | `false` | one or more decimal digits (an unsigned 32-bit
//! integer; overflow is a parse failure) | a double-quoted string where
//! `\"`, `\\`, `\n` and `\t` are recognized escapes and any other
//! backslash sequence drops the backslash and keeps the following
//! character verbatim.

use vstd::prelude::*;
use vstd::string::StrSliceExecFns;
use vstd::string::StringExecFns;

use crate::error::Error;

verus! {

/// Decodes a JSON array of strings (the device-name list payload).
pub fn json_str_to_vec(json_str: &str) -> (r: Result<Vec<String>, Error>)
    ensures
        match r {
            Ok(v) => crate::json::json_string_list(json_str@) == Some(v.deep_view()),
            Err(e) => crate::json::json_string_list(json_str@) is None && e == Error::Malformed,
        },
{
    match crate::json::json_to_vec_raw(json_str) {
        Some(v) => Ok(v),
        None => Err(Error::Malformed),
    }
}

/// A protocol value: the closed union of the three literal shapes the
/// wire grammar knows.
#[derive(Debug)]
pub enum Value {
    Integer(u32),
    Boolean(bool),
    String(String),
}

/// The mathematical model of a [`Value`]: text is modelled as a
/// sequence of characters.
pub ghost enum ValueModel {
    Integer(u32),
    Boolean(bool),
    Str(Seq<char>),
}

impl View for Value {
    type V = ValueModel;

    open spec fn view(&self) -> ValueModel {
        match self {
            Value::Integer(n) => ValueModel::Integer(*n),
            Value::Boolean(b) => ValueModel::Boolean(*b),
            Value::String(s) => ValueModel::Str(s@),
        }
    }
}

impl DeepView for Value {
    type V = ValueModel;

    open spec fn deep_view(&self) -> ValueModel {
        self.view()
    }
}

impl PartialEq for Value {
    fn eq(&self, other: &Value) -> (r: bool) {
        let r = match (self, other) {
            (Value::Integer(a), Value::Integer(b)) => {
                let r = *a == *b;
                proof {
                    assert(r == (self@ == other@));
                }
                r
            },
            (Value::Boolean(a), Value::Boolean(b)) => {
                let r = *a == *b;
                proof {
                    assert(r == (self@ == other@));
                }
                r
            },
            (Value::String(a), Value::String(b)) => {
                let r = *a == *b;
                proof {
                    assert(r == (self@ == other@));
                }
                r
            },
            _ => {
                proof {
                    assert(self@ != other@);
                }
                false
            },
        };
        r
    }
}

impl vstd::std_specs::cmp::PartialEqSpecImpl for Value {
    open spec fn obeys_eq_spec() -> bool {
        true
    }

    open spec fn eq_spec(&self, other: &Value) -> bool {
        self@ == other@
    }
}

impl Clone for Value {
    /// Clones preserve the value exactly.
    fn clone(&self) -> (r: Self)
        ensures
            r == *self,
    {
        match self {
            Value::Integer(n) => Value::Integer(*n),
            Value::Boolean(b) => Value::Boolean(*b),
            Value::String(s) => Value::String(s.clone()),
        }
    }
}

/// Relies on `String::push`: appends the given character to the end of
/// the string.
#[verifier::external_body]
pub(crate) fn push_char(s: &mut String, c: char)
    ensures
        final(s)@ == old(s)@.push(c),
{
    s.push(c);
}

/// The characters the grammar treats as token separators.
pub open spec fn is_ws(c: char) -> bool {
    c == ' ' || c == '\t' || c == '\r' || c == '\n'
}

/// The decimal digit characters.
pub open spec fn digit_char(d: nat) -> char {
    if d == 0 {
        '0'
    } else if d == 1 {
        '1'
    } else if d == 2 {
        '2'
    } else if d == 3 {
        '3'
    } else if d == 4 {
        '4'
    } else if d == 5 {
        '5'
    } else if d == 6 {
        '6'
    } else if d == 7 {
        '7'
    } else if d == 8 {
        '8'
    } else {
        '9'
    }
}

fn digit_to_char(d: u32) -> (c: char)
    requires
        d < 10,
    ensures
        c == digit_char(d as nat),
{
    match d {
        0 => '0',
        1 => '1',
        2 => '2',
        3 => '3',
        4 => '4',
        5 => '5',
        6 => '6',
        7 => '7',
        8 => '8',
        _ => '9',
    }
}

/// The canonical decimal rendering of an unsigned integer: most
/// significant digit first, no leading zeros (a single `'0'` for zero).
pub open spec fn spec_dec(n: nat) -> Seq<char>
    decreases n,
{
    if n < 10 {
        seq![digit_char(n)]
    } else {
        spec_dec(n / 10).push(digit_char(n % 10))
    }
}

/// Renders `n` as decimal digits.
pub fn u32_to_string(n: u32) -> (s: String)
    ensures
        s@ == spec_dec(n as nat),
    decreases n,
{
    if n < 10 {
        let mut s = String::new();
        push_char(&mut s, digit_to_char(n));
        proof {
            assert(s@ =~= spec_dec(n as nat));
        }
        s
    } else {
        let mut s = u32_to_string(n / 10);
        push_char(&mut s, digit_to_char(n % 10));
        s
    }
}

/// How one character of string content appears on the wire.
pub open spec fn escape_char(c: char) -> Seq<char> {
    if c == '\n' {
        seq!['\\', 'n']
    } else if c == '\t' {
        seq!['\\', 't']
    } else if c == '\\' {
        seq!['\\', '\\']
    } else if c == '"' {
        seq!['\\', '"']
    } else {
        seq![c]
    }
}

/// The escaped wire form of string content.
pub open spec fn spec_escape(s: Seq<char>) -> Seq<char>
    decreases s.len(),
{
    if s.len() == 0 {
        Seq::<char>::empty()
    } else {
        escape_char(s[0]) + spec_escape(s.drop_first())
    }
}

/// The canonical wire text of a value: integers as decimal digits,
/// booleans as `true`/`false`, strings double-quoted with escapes.
pub open spec fn spec_render(v: ValueModel) -> Seq<char> {
    match v {
        ValueModel::Integer(n) => spec_dec(n as nat),
        ValueModel::Boolean(b) => if b {
            seq!['t', 'r', 'u', 'e']
        } else {
            seq!['f', 'a', 'l', 's', 'e']
        },
        ValueModel::Str(s) => seq!['"'] + spec_escape(s) + seq!['"'],
    }
}

/// Collects the characters of `s` into a vector.
pub(crate) fn chars_vec(s: &str) -> (v: Vec<char>)
    ensures
        v@ == s@,
{
    let n = s.unicode_len();
    let mut v: Vec<char> = Vec::new();
    let mut i: usize = 0;
    while i < n
        invariant
            i <= n,
            n == s@.len(),
            v@ == s@.subrange(0, i as int),
        decreases n - i,
    {
        let c = s.get_char(i);
        v.push(c);
        proof {
            assert(v@ =~= s@.subrange(0, i + 1));
        }
        i += 1;
    }
    proof {
        assert(s@.subrange(0, n as int) =~= s@);
    }
    v
}

/// Appends the escaped wire form of `content` to `out`.
fn escape_into(out: &mut String, content: &str)
    ensures
        final(out)@ == old(out)@ + spec_escape(content@),
{
    let cs = chars_vec(content);
    let n = cs.len();
    let mut i: usize = 0;
    proof {
        assert(content@.skip(0) =~= content@);
    }
    while i < n
        invariant
            i <= n,
            n == cs.len(),
            cs@ == content@,
            out@ + spec_escape(content@.skip(i as int)) == old(out)@ + spec_escape(content@),
        decreases n - i,
    {
        let c = cs[i];
        proof {
            assert(content@.skip(i as int)[0] == c);
            assert(content@.skip(i as int).drop_first() =~= content@.skip(i + 1));
        }
        if c == '\n' {
            push_char(out, '\\');
            push_char(out, 'n');
        } else if c == '\t' {
            push_char(out, '\\');
            push_char(out, 't');
        } else if c == '\\' {
            push_char(out, '\\');
            push_char(out, '\\');
        } else if c == '"' {
            push_char(out, '\\');
            push_char(out, '"');
        } else {
            push_char(out, c);
        }
        proof {
            assert(out@ + spec_escape(content@.skip(i + 1)) =~= old(out)@ + spec_escape(content@));
        }
        i += 1;
    }
    proof {
        assert(content@.skip(n as int) =~= Seq::<char>::empty());
        assert(final(out)@ =~= old(out)@ + spec_escape(content@));
    }
}

/// The decimal digit characters.
pub open spec fn is_digit(c: char) -> bool {
    c == '0' || c == '1' || c == '2' || c == '3' || c == '4' || c == '5' || c == '6' || c == '7'
        || c == '8' || c == '9'
}

/// The numeric value of a decimal digit character.
pub open spec fn digit_val(c: char) -> nat {
    if c == '0' {
        0
    } else if c == '1' {
        1
    } else if c == '2' {
        2
    } else if c == '3' {
        3
    } else if c == '4' {
        4
    } else if c == '5' {
        5
    } else if c == '6' {
        6
    } else if c == '7' {
        7
    } else if c == '8' {
        8
    } else {
        9
    }
}

pub open spec fn all_digits(s: Seq<char>) -> bool {
    forall|k: int| 0 <= k < s.len() ==> is_digit(s[k])
}

/// The number denoted by a sequence of decimal digits (most significant
/// first); the empty sequence denotes zero.
pub open spec fn digits_val(s: Seq<char>) -> nat
    decreases s.len(),
{
    if s.len() == 0 {
        0
    } else {
        digits_val(s.drop_last()) * 10 + digit_val(s.last())
    }
}

/// The first position at or after `i` that ends a bare (unquoted)
/// token: the first separator, or the end of input.
pub open spec fn bare_end(s: Seq<char>, i: int) -> int
    decreases s.len() - i,
{
    if 0 <= i < s.len() && !is_ws(s[i]) {
        bare_end(s, i + 1)
    } else {
        i
    }
}

/// The position of the closing quote of a string token whose content
/// starts at `i`, skipping over backslash escapes pairwise; `None` if
/// the token is unterminated.
pub open spec fn scan_close(s: Seq<char>, i: int) -> Option<int>
    decreases s.len() - i,
{
    if i < 0 || i >= s.len() {
        None
    } else if s[i] == '\\' {
        if i + 1 < s.len() {
            scan_close(s, i + 2)
        } else {
            None
        }
    } else if s[i] == '"' {
        Some(i)
    } else {
        scan_close(s, i + 1)
    }
}

/// What an escaped character denotes: the recognized escapes map to
/// their control character, any other escaped character stands for
/// itself (the backslash is dropped).
pub open spec fn unescape_char(c: char) -> char {
    if c == 'n' {
        '\n'
    } else if c == 't' {
        '\t'
    } else {
        c
    }
}

/// The content denoted by the raw (still escaped) text between the
/// quotes of a string token. A lone trailing backslash is dropped.
pub open spec fn spec_unescape(s: Seq<char>) -> Seq<char>
    decreases s.len(),
{
    if s.len() == 0 {
        Seq::<char>::empty()
    } else if s[0] == '\\' {
        if s.len() == 1 {
            Seq::<char>::empty()
        } else {
            seq![unescape_char(s[1])] + spec_unescape(s.skip(2))
        }
    } else {
        seq![s[0]] + spec_unescape(s.skip(1))
    }
}

/// The token starting at position `i` (which must hold a non-separator
/// character): the value it denotes and the position just past it, or
/// `None` if the text there is not a literal of the grammar.
pub open spec fn spec_token_at(s: Seq<char>, i: int) -> Option<(ValueModel, int)> {
    if !(0 <= i < s.len()) {
        None
    } else if s[i] == '"' {
        match scan_close(s, i + 1) {
            None => None,
            Some(j) => Some((ValueModel::Str(spec_unescape(s.subrange(i + 1, j))), j + 1)),
        }
    } else {
        let e = bare_end(s, i);
        let tok = s.subrange(i, e);
        if tok == seq!['t', 'r', 'u', 'e'] {
            Some((ValueModel::Boolean(true), e))
        } else if tok == seq!['f', 'a', 'l', 's', 'e'] {
            Some((ValueModel::Boolean(false), e))
        } else if tok.len() >= 1 && all_digits(tok) && digits_val(tok) <= u32::MAX as nat {
            Some((ValueModel::Integer(digits_val(tok) as u32), e))
        } else {
            None
        }
    }
}

/// The values denoted by the input from position `i` on: tokens
/// separated by whitespace, in source order; `None` as soon as any
/// token fails to parse (no partial results).
pub open spec fn spec_parse_from(s: Seq<char>, i: int) -> Option<Seq<ValueModel>>
    decreases s.len() - i,
{
    if !(0 <= i <= s.len()) {
        None
    } else if i == s.len() {
        Some(Seq::<ValueModel>::empty())
    } else if is_ws(s[i]) {
        spec_parse_from(s, i + 1)
    } else {
        match spec_token_at(s, i) {
            None => None,
            Some((v, e)) => {
                if !(i < e <= s.len()) {
                    None
                } else if e == s.len() {
                    Some(seq![v])
                } else if is_ws(s[e]) {
                    match spec_parse_from(s, e) {
                        None => None,
                        Some(rest) => Some(seq![v] + rest),
                    }
                } else {
                    None
                }
            },
        }
    }
}

/// What the whole input denotes, if it is a well-formed sequence of
/// literals.
pub open spec fn spec_parse(s: Seq<char>) -> Option<Seq<ValueModel>> {
    spec_parse_from(s, 0)
}

proof fn lemma_bare_end(s: Seq<char>, i: int)
    requires
        0 <= i <= s.len(),
    ensures
        i <= bare_end(s, i) <= s.len(),
        forall|j: int| i <= j < bare_end(s, i) ==> !is_ws(s[j]),
        bare_end(s, i) < s.len() ==> is_ws(s[bare_end(s, i)]),
    decreases s.len() - i,
{
    if i < s.len() && !is_ws(s[i]) {
        lemma_bare_end(s, i + 1);
    }
}

proof fn lemma_scan_close(s: Seq<char>, i: int)
    requires
        0 <= i,
    ensures
        scan_close(s, i) matches Some(j) ==> i <= j < s.len() && s[j] == '"',
    decreases s.len() - i,
{
    if i < s.len() {
        if s[i] == '\\' {
            if i + 1 < s.len() {
                lemma_scan_close(s, i + 2);
            }
        } else if s[i] != '"' {
            lemma_scan_close(s, i + 1);
        }
    }
}

impl Value {
    /// Renders this value into its canonical wire text.
    pub fn render(&self) -> (s: String)
        ensures
            s@ == spec_render(self@),
    {
        match self {
            Value::Integer(n) => u32_to_string(*n),
            Value::Boolean(b) => {
                if *b {
                    let s = String::from_str("true");
                    proof {
                        reveal_strlit("true");
                        assert(s@ =~= seq!['t', 'r', 'u', 'e']);
                    }
                    s
                } else {
                    let s = String::from_str("false");
                    proof {
                        reveal_strlit("false");
                        assert(s@ =~= seq!['f', 'a', 'l', 's', 'e']);
                    }
                    s
                }
            },
            Value::String(text) => {
                let mut out = String::new();
                push_char(&mut out, '"');
                escape_into(&mut out, text.as_str());
                push_char(&mut out, '"');
                proof {
                    assert(out@ =~= seq!['"'] + spec_escape(text@) + seq!['"']);
                }
                out
            },
        }
    }
}

/// Whether the texts of `a` and `b` are equal, character for
/// character.
pub(crate) fn str_eq(a: &str, b: &str) -> (r: bool)
    ensures
        r == (a@ == b@),
{
    let na = a.unicode_len();
    let nb = b.unicode_len();
    if na != nb {
        proof {
            assert(a@ != b@);
        }
        return false;
    }
    let mut i: usize = 0;
    while i < na
        invariant
            i <= na,
            na == a@.len(),
            na == b@.len(),
            forall|j: int| 0 <= j < i ==> a@[j] == b@[j],
        decreases na - i,
    {
        if a.get_char(i) != b.get_char(i) {
            proof {
                assert(a@[i as int] != b@[i as int]);
            }
            return false;
        }
        i += 1;
    }
    proof {
        assert(a@ =~= b@);
    }
    true
}

/// Whether the text of `pat` is a prefix of the text of `s`.
pub open spec fn has_prefix(s: Seq<char>, pat: Seq<char>) -> bool {
    pat.len() <= s.len() && s.subrange(0, pat.len() as int) == pat
}

/// The text of `s` with the prefix `pat` removed, if it is there.
pub open spec fn strip_prefix(s: Seq<char>, pat: Seq<char>) -> Seq<char> {
    if has_prefix(s, pat) {
        s.skip(pat.len() as int)
    } else {
        s
    }
}

/// Whether `pat` is a prefix of `s`, character for character.
pub(crate) fn str_starts_with(s: &str, pat: &str) -> (r: bool)
    ensures
        r == has_prefix(s@, pat@),
{
    let n = s.unicode_len();
    let m = pat.unicode_len();
    if m > n {
        return false;
    }
    let mut i: usize = 0;
    while i < m
        invariant
            i <= m,
            m <= n,
            n == s@.len(),
            m == pat@.len(),
            forall|j: int| 0 <= j < i ==> s@[j] == pat@[j],
        decreases m - i,
    {
        if s.get_char(i) != pat.get_char(i) {
            proof {
                assert(s@.subrange(0, m as int)[i as int] != pat@[i as int]);
            }
            return false;
        }
        i += 1;
    }
    proof {
        assert(s@.subrange(0, m as int) =~= pat@);
    }
    true
}

fn is_ws_char(c: char) -> (b: bool)
    ensures
        b == is_ws(c),
{
    c == ' ' || c == '\t' || c == '\r' || c == '\n'
}

fn digit_of_char(c: char) -> (r: Option<u32>)
    ensures
        match r {
            Some(d) => is_digit(c) && d == digit_val(c),
            None => !is_digit(c),
        },
{
    match c {
        '0' => Some(0),
        '1' => Some(1),
        '2' => Some(2),
        '3' => Some(3),
        '4' => Some(4),
        '5' => Some(5),
        '6' => Some(6),
        '7' => Some(7),
        '8' => Some(8),
        '9' => Some(9),
        _ => None,
    }
}

fn find_bare_end(cs: &Vec<char>, i: usize) -> (e: usize)
    requires
        i <= cs@.len(),
    ensures
        e == bare_end(cs@, i as int),
        i <= e <= cs@.len(),
    decreases cs@.len() - i,
{
    proof {
        lemma_bare_end(cs@, i as int);
    }
    if i < cs.len() && !is_ws_char(cs[i]) {
        find_bare_end(cs, i + 1)
    } else {
        i
    }
}

fn find_close(cs: &Vec<char>, i: usize) -> (r: Option<usize>)
    requires
        i <= cs@.len(),
    ensures
        match r {
            Some(j) => scan_close(cs@, i as int) == Some(j as int),
            None => scan_close(cs@, i as int) is None,
        },
    decreases cs@.len() - i,
{
    if i >= cs.len() {
        None
    } else if cs[i] == '\\' {
        if i + 1 < cs.len() {
            find_close(cs, i + 2)
        } else {
            None
        }
    } else if cs[i] == '"' {
        Some(i)
    } else {
        find_close(cs, i + 1)
    }
}

/// Builds the content denoted by the raw characters `cs[from..to]`.
fn unescape_range(cs: &Vec<char>, from: usize, to: usize) -> (out: String)
    requires
        from <= to <= cs@.len(),
    ensures
        out@ == spec_unescape(cs@.subrange(from as int, to as int)),
{
    let mut out = String::new();
    let mut k: usize = from;
    while k < to
        invariant
            from <= k <= to <= cs@.len(),
            out@ + spec_unescape(cs@.subrange(k as int, to as int)) == spec_unescape(
                cs@.subrange(from as int, to as int),
            ),
        decreases to - k,
    {
        let ghost tail = cs@.subrange(k as int, to as int);
        let c = cs[k];
        proof {
            assert(tail[0] == c);
        }
        if c == '\\' {
            if k + 1 >= to {
                proof {
                    assert(tail.len() == 1);
                    assert(spec_unescape(tail) =~= Seq::<char>::empty());
                    assert(cs@.subrange(to as int, to as int) =~= Seq::<char>::empty());
                    assert(spec_unescape(cs@.subrange(to as int, to as int)) =~= Seq::<
                        char,
                    >::empty());
                }
                k = to;
            } else {
                let d = cs[k + 1];
                let ghost prev = out@;
                proof {
                    assert(tail[1] == d);
                    assert(tail.skip(2) =~= cs@.subrange(k + 2, to as int));
                }
                if d == 'n' {
                    push_char(&mut out, '\n');
                } else if d == 't' {
                    push_char(&mut out, '\t');
                } else {
                    push_char(&mut out, d);
                }
                proof {
                    assert(out@ + spec_unescape(cs@.subrange(k + 2, to as int)) =~= prev
                        + spec_unescape(tail));
                }
                k = k + 2;
            }
        } else {
            let ghost prev = out@;
            proof {
                assert(tail.skip(1) =~= cs@.subrange(k + 1, to as int));
            }
            push_char(&mut out, c);
            proof {
                assert(out@ + spec_unescape(cs@.subrange(k + 1, to as int)) =~= prev
                    + spec_unescape(tail));
            }
            k = k + 1;
        }
    }
    proof {
        assert(spec_unescape(cs@.subrange(to as int, to as int)) =~= Seq::<char>::empty());
        assert(out@ =~= spec_unescape(cs@.subrange(from as int, to as int)));
    }
    out
}

proof fn lemma_digits_take(s: Seq<char>, k: int)
    requires
        0 <= k < s.len(),
    ensures
        digits_val(s.take(k + 1)) == digits_val(s.take(k)) * 10 + digit_val(s[k]),
{
    assert(s.take(k + 1).drop_last() =~= s.take(k));
    assert(s.take(k + 1).last() == s[k]);
}

proof fn lemma_digits_mono(s: Seq<char>, k: int)
    requires
        0 <= k <= s.len(),
    ensures
        digits_val(s) >= digits_val(s.take(k)),
    decreases s.len() - k,
{
    if k < s.len() {
        lemma_digits_take(s, k);
        lemma_digits_mono(s, k + 1);
        assert(digits_val(s.take(k + 1)) >= digits_val(s.take(k)));
    } else {
        assert(s.take(k) =~= s);
    }
}

/// Reads the digit run `cs[from..to]` as an unsigned 32-bit integer;
/// `None` on overflow.
fn parse_u32_digits(cs: &Vec<char>, from: usize, to: usize) -> (r: Option<u32>)
    requires
        from <= to <= cs@.len(),
        all_digits(cs@.subrange(from as int, to as int)),
    ensures
        ({
            let tok = cs@.subrange(from as int, to as int);
            match r {
                Some(n) => digits_val(tok) == n as nat,
                None => digits_val(tok) > u32::MAX as nat,
            }
        }),
{
    let ghost tok = cs@.subrange(from as int, to as int);
    let mut acc: u32 = 0;
    let mut k: usize = from;
    proof {
        assert(tok.take(0) =~= Seq::<char>::empty());
    }
    while k < to
        invariant
            from <= k <= to <= cs@.len(),
            tok == cs@.subrange(from as int, to as int),
            all_digits(tok),
            acc as nat == digits_val(tok.take(k - from)),
        decreases to - k,
    {
        let c = cs[k];
        proof {
            assert(tok[k - from] == c);
        }
        let d = match digit_of_char(c) {
            Some(d) => d,
            None => {
                proof {
                    assert(false);
                }
                0
            },
        };
        let wide: u64 = (acc as u64) * 10 + (d as u64);
        proof {
            lemma_digits_take(tok, k - from);
        }
        if wide > u32::MAX as u64 {
            proof {
                lemma_digits_mono(tok, k + 1 - from);
                assert(tok.take(tok.len() as int) =~= tok);
            }
            return None;
        }
        acc = wide as u32;
        k = k + 1;
    }
    proof {
        assert(tok.take(to - from) =~= tok);
    }
    Some(acc)
}

/// The number a bare decimal text denotes: at least one digit, digits
/// only, within the unsigned 32-bit range.
pub open spec fn spec_dec_u32(s: Seq<char>) -> Option<u32> {
    if s.len() >= 1 && all_digits(s) && digits_val(s) <= u32::MAX as nat {
        Some(digits_val(s) as u32)
    } else {
        None
    }
}

/// Reads a whole text as an unsigned 32-bit decimal number.
pub fn parse_dec_u32(s: &str) -> (r: Option<u32>)
    ensures
        r == spec_dec_u32(s@),
{
    let cs = chars_vec(s);
    let n = cs.len();
    proof {
        assert(cs@.subrange(0, n as int) =~= cs@);
    }
    if n == 0 {
        return None;
    }
    if !range_all_digits(&cs, 0, n) {
        return None;
    }
    parse_u32_digits(&cs, 0, n)
}

/// Compares `cs[from..to]` with the four characters of `true`.
fn range_is_true(cs: &Vec<char>, from: usize, to: usize) -> (b: bool)
    requires
        from <= to <= cs@.len(),
    ensures
        b == (cs@.subrange(from as int, to as int) == seq!['t', 'r', 'u', 'e']),
{
    let ghost tok = cs@.subrange(from as int, to as int);
    if to - from != 4 {
        proof {
            assert(tok.len() != 4);
        }
        false
    } else {
        let b = cs[from] == 't' && cs[from + 1] == 'r' && cs[from + 2] == 'u' && cs[from + 3]
            == 'e';
        proof {
            if b {
                assert(tok =~= seq!['t', 'r', 'u', 'e']);
            } else {
                assert(tok[0] == cs@[from as int] && tok[1] == cs@[from + 1] && tok[2] == cs@[from
                    + 2] && tok[3] == cs@[from + 3]);
            }
        }
        b
    }
}

/// Compares `cs[from..to]` with the five characters of `false`.
fn range_is_false(cs: &Vec<char>, from: usize, to: usize) -> (b: bool)
    requires
        from <= to <= cs@.len(),
    ensures
        b == (cs@.subrange(from as int, to as int) == seq!['f', 'a', 'l', 's', 'e']),
{
    let ghost tok = cs@.subrange(from as int, to as int);
    if to - from != 5 {
        proof {
            assert(tok.len() != 5);
        }
        false
    } else {
        let b = cs[from] == 'f' && cs[from + 1] == 'a' && cs[from + 2] == 'l' && cs[from + 3]
            == 's' && cs[from + 4] == 'e';
        proof {
            if b {
                assert(tok =~= seq!['f', 'a', 'l', 's', 'e']);
            } else {
                assert(tok[0] == cs@[from as int] && tok[1] == cs@[from + 1] && tok[2] == cs@[from
                    + 2] && tok[3] == cs@[from + 3] && tok[4] == cs@[from + 4]);
            }
        }
        b
    }
}

/// Checks that every character of `cs[from..to]` is a decimal digit.
fn range_all_digits(cs: &Vec<char>, from: usize, to: usize) -> (b: bool)
    requires
        from <= to <= cs@.len(),
    ensures
        b == all_digits(cs@.subrange(from as int, to as int)),
{
    let ghost tok = cs@.subrange(from as int, to as int);
    let mut k: usize = from;
    while k < to
        invariant
            from <= k <= to <= cs@.len(),
            tok == cs@.subrange(from as int, to as int),
            forall|j: int| 0 <= j < k - from ==> is_digit(tok[j]),
        decreases to - k,
    {
        let c = cs[k];
        proof {
            assert(tok[k - from] == c);
        }
        if digit_of_char(c).is_none() {
            proof {
                assert(!is_digit(tok[k - from]));
            }
            return false;
        }
        k = k + 1;
    }
    true
}

/// Parses the token starting at position `i`, which must hold a
/// non-separator character; returns the value and the position just
/// past the token.
fn parse_token_at(cs: &Vec<char>, i: usize) -> (r: Option<(Value, usize)>)
    requires
        i < cs@.len(),
        !is_ws(cs@[i as int]),
    ensures
        match r {
            Some(p) => spec_token_at(cs@, i as int) == Some((p.0@, p.1 as int)) && i < p.1
                <= cs@.len(),
            None => spec_token_at(cs@, i as int) is None,
        },
{
    let n = cs.len();
    if cs[i] == '"' {
        match find_close(cs, i + 1) {
            None => None,
            Some(j) => {
                proof {
                    lemma_scan_close(cs@, i + 1);
                    assert(j < n);
                }
                let content = unescape_range(cs, i + 1, j);
                Some((Value::String(content), j + 1))
            },
        }
    } else {
        let e = find_bare_end(cs, i);
        proof {
            lemma_bare_end(cs@, i as int);
            assert(!is_ws(cs@[i as int]));
            assert(e > i);
        }
        if range_is_true(cs, i, e) {
            Some((Value::Boolean(true), e))
        } else if range_is_false(cs, i, e) {
            Some((Value::Boolean(false), e))
        } else if range_all_digits(cs, i, e) {
            match parse_u32_digits(cs, i, e) {
                Some(n) => Some((Value::Integer(n), e)),
                None => None,
            }
        } else {
            None
        }
    }
}

/// Parses a whitespace-separated sequence of literals. Returns the
/// values in source order, or `None` if any token is malformed (no
/// partial results).
pub fn parse(input: &str) -> (r: Option<Vec<Value>>)
    ensures
        match r {
            Some(vs) => spec_parse(input@) == Some(vs.deep_view()),
            None => spec_parse(input@) is None,
        },
{
    let cs = chars_vec(input);
    let n = cs.len();
    let mut out: Vec<Value> = Vec::new();
    let mut i: usize = 0;
    loop
        invariant
            i <= n,
            n == cs@.len(),
            cs@ == input@,
            spec_parse(input@) == (match spec_parse_from(cs@, i as int) {
                None => None::<Seq<ValueModel>>,
                Some(rest) => Some(out.deep_view() + rest),
            }),
        decreases n - i,
    {
        if i == n {
            proof {
                assert(out.deep_view() + Seq::<ValueModel>::empty() =~= out.deep_view());
            }
            return Some(out);
        }
        if is_ws_char(cs[i]) {
            i = i + 1;
            continue ;
        }
        match parse_token_at(&cs, i) {
            None => {
                return None;
            },
            Some((v, e)) => {
                let ghost old_out = out.deep_view();
                let ghost vm = v@;
                out.push(v);
                proof {
                    assert(out.deep_view() =~= old_out.push(vm));
                }
                if e == n {
                    proof {
                        assert(old_out + seq![vm] =~= out.deep_view());
                    }
                    return Some(out);
                } else if is_ws_char(cs[e]) {
                    proof {
                        let rest = spec_parse_from(cs@, e as int).unwrap();
                        assert(old_out + (seq![vm] + rest) =~= out.deep_view() + rest);
                    }
                    i = e;
                } else {
                    return None;
                }
            },
        }
    }
}

proof fn lemma_unescape_escape(s: Seq<char>)
    ensures
        spec_unescape(spec_escape(s)) == s,
    decreases s.len(),
{
    if s.len() == 0 {
        assert(spec_unescape(spec_escape(s)) =~= s);
    } else {
        lemma_unescape_escape(s.drop_first());
        let c = s[0];
        let e = spec_escape(s);
        let erest = spec_escape(s.drop_first());
        if c == '\n' || c == '\t' || c == '\\' || c == '"' {
            assert(e[0] == '\\');
            assert(e.len() >= 2);
            assert(e.skip(2) =~= erest);
            assert(spec_unescape(e) == seq![c] + s.drop_first());
            assert(seq![c] + s.drop_first() =~= s);
        } else {
            assert(e[0] == c);
            assert(e.skip(1) =~= erest);
            assert(spec_unescape(e) == seq![c] + s.drop_first());
            assert(seq![c] + s.drop_first() =~= s);
        }
    }
}

proof fn lemma_scan_escaped(full: Seq<char>, i: int, s: Seq<char>)
    requires
        0 <= i,
        i + spec_escape(s).len() < full.len(),
        full.subrange(i, i + spec_escape(s).len()) == spec_escape(s),
        full[i + spec_escape(s).len()] == '"',
    ensures
        scan_close(full, i) == Some(i + spec_escape(s).len()),
    decreases s.len(),
{
    let e = spec_escape(s);
    if s.len() == 0 {
        assert(e.len() == 0);
        assert(full[i] == '"');
    } else {
        let c = s[0];
        let erest = spec_escape(s.drop_first());
        let sub = full.subrange(i, i + e.len() as int);
        if c == '\n' || c == '\t' || c == '\\' || c == '"' {
            assert(e.len() == 2 + erest.len());
            assert(full[i] == sub[0] && sub[0] == e[0] && e[0] == '\\');
            assert(full.subrange(i + 2, i + 2 + erest.len() as int) =~= sub.skip(2));
            assert(sub.skip(2) =~= e.skip(2));
            assert(e.skip(2) =~= erest);
            lemma_scan_escaped(full, i + 2, s.drop_first());
        } else {
            assert(e.len() == 1 + erest.len());
            assert(full[i] == sub[0] && sub[0] == e[0] && e[0] == c);
            assert(full.subrange(i + 1, i + 1 + erest.len() as int) =~= sub.skip(1));
            assert(sub.skip(1) =~= e.skip(1));
            assert(e.skip(1) =~= erest);
            lemma_scan_escaped(full, i + 1, s.drop_first());
        }
    }
}

proof fn lemma_dec_digits(n: nat)
    ensures
        spec_dec(n).len() >= 1,
        all_digits(spec_dec(n)),
        digits_val(spec_dec(n)) == n,
    decreases n,
{
    if n < 10 {
        let one = seq![digit_char(n)];
        assert(is_digit(digit_char(n)));
        assert(digit_val(digit_char(n)) == n);
        assert(one.drop_last() =~= Seq::<char>::empty());
        assert(digits_val(Seq::<char>::empty()) == 0);
        assert(one.last() == digit_char(n));
        assert(digits_val(one) == digits_val(one.drop_last()) * 10 + digit_val(one.last()));
        assert(digits_val(one) == n);
    } else {
        lemma_dec_digits(n / 10);
        let p = spec_dec(n / 10);
        let d = digit_char(n % 10);
        assert(spec_dec(n).drop_last() =~= p);
        assert(spec_dec(n).last() == d);
        assert(is_digit(d));
        assert(digit_val(d) == n % 10);
        assert(digits_val(spec_dec(n)) == digits_val(p) * 10 + digit_val(d));
        assert(forall|k: int|
            0 <= k < spec_dec(n).len() ==> is_digit(
                #[trigger] spec_dec(n)[k],
            )) by {
            assert(forall|k: int| 0 <= k < p.len() ==> #[trigger] spec_dec(n)[k] == p[k]);
            assert(spec_dec(n)[p.len() as int] == d);
        }
    }
}

proof fn lemma_bare_end_of(full: Seq<char>, i: int, m: int)
    requires
        0 <= i,
        0 <= m,
        i + m <= full.len(),
        forall|j: int| i <= j < i + m ==> !is_ws(full[j]),
        i + m == full.len() || is_ws(full[i + m]),
    ensures
        bare_end(full, i) == i + m,
    decreases m,
{
    if m > 0 {
        lemma_bare_end_of(full, i + 1, m - 1);
    }
}

/// The round-trip law of the codec: the canonical rendering of any
/// representable value parses back to exactly that value.
pub proof fn lemma_parse_render(v: ValueModel)
    ensures
        spec_parse(spec_render(v)) == Some(seq![v]),
{
    let full = spec_render(v);
    match v {
        ValueModel::Integer(n) => {
            lemma_dec_digits(n as nat);
            assert(is_digit(full[0]));
            assert(forall|j: int| 0 <= j < full.len() ==> !is_ws(#[trigger] full[j])) by {
                assert(forall|j: int| 0 <= j < full.len() ==> is_digit(#[trigger] full[j]));
            }
            lemma_bare_end_of(full, 0, full.len() as int);
            assert(full.subrange(0, full.len() as int) =~= full);
            assert(full != seq!['t', 'r', 'u', 'e']) by {
                if full == seq!['t', 'r', 'u', 'e'] {
                    assert(full[0] == 't');
                }
            }
            assert(full != seq!['f', 'a', 'l', 's', 'e']) by {
                if full == seq!['f', 'a', 'l', 's', 'e'] {
                    assert(full[0] == 'f');
                }
            }
            assert(spec_token_at(full, 0) == Some((v, full.len() as int)));
            assert(spec_parse_from(full, 0) == Some(seq![v]));
        },
        ValueModel::Boolean(b) => {
            if b {
                assert(full =~= seq!['t', 'r', 'u', 'e']);
                assert(forall|j: int| 0 <= j < 4 ==> !is_ws(#[trigger] full[j]));
                lemma_bare_end_of(full, 0, 4);
                assert(full.subrange(0, 4) =~= full);
                assert(spec_token_at(full, 0) == Some((v, 4int)));
                assert(spec_parse_from(full, 0) == Some(seq![v]));
            } else {
                assert(full =~= seq!['f', 'a', 'l', 's', 'e']);
                assert(forall|j: int| 0 <= j < 5 ==> !is_ws(#[trigger] full[j]));
                lemma_bare_end_of(full, 0, 5);
                assert(full.subrange(0, 5) =~= full);
                assert(full != seq!['t', 'r', 'u', 'e']);
                assert(spec_token_at(full, 0) == Some((v, 5int)));
                assert(spec_parse_from(full, 0) == Some(seq![v]));
            }
        },
        ValueModel::Str(s) => {
            let e = spec_escape(s);
            assert(full.len() == e.len() + 2);
            assert(full[0] == '"');
            assert(full.subrange(1, 1 + e.len() as int) =~= e);
            assert(full[1 + e.len() as int] == '"');
            lemma_scan_escaped(full, 1, s);
            lemma_unescape_escape(s);
            assert(spec_token_at(full, 0) == Some((v, full.len() as int)));
            assert(spec_parse_from(full, 0) == Some(seq![v]));
        },
    }
}

/// Strips the surrounding quotes from a raw string token and resolves
/// its escapes.
pub fn parse_string(s: &str) -> (out: String)
    requires
        s@.len() >= 2,
    ensures
        out@ == spec_unescape(s@.subrange(1, s@.len() - 1)),
{
    let cs = chars_vec(s);
    let n = cs.len();
    unescape_range(&cs, 1, n - 1)
}

} // verus!
