//! Parsing of the textual board description.
//!
//! The import text is 19 comma-separated entries in slot order; each
//! entry is either the word `desert` (case-insensitively) or a
//! `<resource> <number>` pair with the number in 2..=12 and not 7.
//! Parsing is all-or-nothing: the first failure aborts the whole parse
//! and is returned as a single typed error.
//!
//! The executable parser is specified against a character-level model:
//! `spec_parse_import` defines the outcome for every input string, and
//! `parse_import`'s contract says the two agree exactly.

use vstd::prelude::*;

verus! {

use vstd::string::StrSliceExecFns;

use crate::board::{num_token_valid, template_q, template_r, Hex, Resource};

/// Whitespace as the entry and token separators recognize it
/// (the ASCII whitespace characters).
pub open spec fn is_space(c: char) -> bool {
    c == ' ' || c == '\t' || c == '\n' || c == '\r' || c == '\u{b}' || c == '\u{c}'
}

/// Decimal digit test.
pub open spec fn is_digit(c: char) -> bool {
    '0' <= c <= '9'
}

/// Numeric value of a decimal digit.
pub open spec fn digit_val(c: char) -> int {
    if c == '0' {
        0
    } else if c == '1' {
        1
    } else if c == '2' {
        2
    } else if c == '3' {
        3
    } else if c == '4' {
        4
    } else if c == '5' {
        5
    } else if c == '6' {
        6
    } else if c == '7' {
        7
    } else if c == '8' {
        8
    } else {
        9
    }
}

/// ASCII lowercasing of one character.
pub open spec fn lower_char(c: char) -> char {
    if c == 'A' {
        'a'
    } else if c == 'B' {
        'b'
    } else if c == 'C' {
        'c'
    } else if c == 'D' {
        'd'
    } else if c == 'E' {
        'e'
    } else if c == 'F' {
        'f'
    } else if c == 'G' {
        'g'
    } else if c == 'H' {
        'h'
    } else if c == 'I' {
        'i'
    } else if c == 'J' {
        'j'
    } else if c == 'K' {
        'k'
    } else if c == 'L' {
        'l'
    } else if c == 'M' {
        'm'
    } else if c == 'N' {
        'n'
    } else if c == 'O' {
        'o'
    } else if c == 'P' {
        'p'
    } else if c == 'Q' {
        'q'
    } else if c == 'R' {
        'r'
    } else if c == 'S' {
        's'
    } else if c == 'T' {
        't'
    } else if c == 'U' {
        'u'
    } else if c == 'V' {
        'v'
    } else if c == 'W' {
        'w'
    } else if c == 'X' {
        'x'
    } else if c == 'Y' {
        'y'
    } else if c == 'Z' {
        'z'
    } else {
        c
    }
}

/// ASCII lowercasing of a character sequence.
pub open spec fn lower_seq(s: Seq<char>) -> Seq<char> {
    Seq::new(s.len(), |i: int| lower_char(s[i]))
}

/// Splitting on commas: every comma separates two (possibly empty)
/// segments, so the result always has one segment more than the input
/// has commas.
pub open spec fn split_commas(s: Seq<char>) -> Seq<Seq<char>>
    decreases s.len(),
{
    if s.len() == 0 {
        seq![Seq::empty()]
    } else {
        let rest = split_commas(s.drop_last());
        if s.last() == ',' {
            rest.push(Seq::empty())
        } else {
            rest.update(rest.len() - 1, rest.last().push(s.last()))
        }
    }
}

/// Leading whitespace dropped.
pub open spec fn trim_start(s: Seq<char>) -> Seq<char>
    decreases s.len(),
{
    if s.len() > 0 && is_space(s[0]) {
        trim_start(s.drop_first())
    } else {
        s
    }
}

/// Trailing whitespace dropped.
pub open spec fn trim_end(s: Seq<char>) -> Seq<char>
    decreases s.len(),
{
    if s.len() > 0 && is_space(s.last()) {
        trim_end(s.drop_last())
    } else {
        s
    }
}

/// Both ends trimmed.
pub open spec fn spec_trim(s: Seq<char>) -> Seq<char> {
    trim_end(trim_start(s))
}

/// Splitting on whitespace runs: the non-empty maximal runs of
/// non-whitespace characters, in order.
pub open spec fn spec_tokens(s: Seq<char>) -> Seq<Seq<char>>
    decreases s.len(),
{
    if s.len() == 0 {
        Seq::empty()
    } else {
        let rest = spec_tokens(s.drop_last());
        let c = s.last();
        if is_space(c) {
            rest
        } else if s.len() >= 2 && !is_space(s[s.len() - 2]) && rest.len() > 0 {
            rest.update(rest.len() - 1, rest.last().push(c))
        } else {
            rest.push(seq![c])
        }
    }
}

/// The name each resource goes by in the import text.
pub open spec fn res_name(r: Resource) -> Seq<char> {
    match r {
        Resource::Wood => seq!['w', 'o', 'o', 'd'],
        Resource::Brick => seq!['b', 'r', 'i', 'c', 'k'],
        Resource::Sheep => seq!['s', 'h', 'e', 'e', 'p'],
        Resource::Wheat => seq!['w', 'h', 'e', 'a', 't'],
        Resource::Ore => seq!['o', 'r', 'e'],
        Resource::Desert => seq!['d', 'e', 's', 'e', 'r', 't'],
    }
}

/// Resolution of an already-lowercased name against the six resources.
pub open spec fn resource_of(n: Seq<char>) -> Option<Resource> {
    if n == res_name(Resource::Wood) {
        Some(Resource::Wood)
    } else if n == res_name(Resource::Brick) {
        Some(Resource::Brick)
    } else if n == res_name(Resource::Sheep) {
        Some(Resource::Sheep)
    } else if n == res_name(Resource::Wheat) {
        Some(Resource::Wheat)
    } else if n == res_name(Resource::Ore) {
        Some(Resource::Ore)
    } else if n == res_name(Resource::Desert) {
        Some(Resource::Desert)
    } else {
        None
    }
}

/// Value of a digit string, most significant digit first.
pub open spec fn digits_val(s: Seq<char>) -> int
    decreases s.len(),
{
    if s.len() == 0 {
        0
    } else {
        digits_val(s.drop_last()) * 10 + digit_val(s.last())
    }
}

/// Whether every character is a decimal digit.
pub open spec fn all_digits(s: Seq<char>) -> bool {
    forall|i: int| 0 <= i < s.len() ==> is_digit(#[trigger] s[i])
}

/// The number token grammar: an optional leading `+`, then one or more
/// digits, value at most 255.
pub open spec fn spec_parse_u8(s: Seq<char>) -> Option<u8> {
    let digs = if s.len() > 0 && s[0] == '+' {
        s.drop_first()
    } else {
        s
    };
    if digs.len() > 0 && all_digits(digs) && digits_val(digs) <= 255 {
        Some(digits_val(digs) as u8)
    } else {
        None
    }
}

/// Parse failures, with their payloads.
#[derive(Clone, Debug, PartialEq)]
pub enum InputHexParseError {
    /// The (lowercased) resource token is not one of the six names.
    InvalidResource(String),
    /// The number is outside 2..=12 or equals 7.
    InvalidNumber(u8),
    /// The 1-based entry and its trimmed text: neither `desert` nor a
    /// well-formed two-token pair with a parseable number.
    InvalidFormat(usize, String),
    /// The text does not have exactly 19 entries.
    InvalidInputLength,
}

/// Character-level reading of a parse error.
pub enum ErrKind {
    BadResource(Seq<char>),
    BadNumber(u8),
    BadFormat(int, Seq<char>),
    BadLength,
}

/// The model an [`InputHexParseError`] denotes.
pub open spec fn err_view(e: InputHexParseError) -> ErrKind {
    match e {
        InputHexParseError::InvalidResource(s) => ErrKind::BadResource(s@),
        InputHexParseError::InvalidNumber(n) => ErrKind::BadNumber(n),
        InputHexParseError::InvalidFormat(slot, s) => ErrKind::BadFormat(slot as int, s@),
        InputHexParseError::InvalidInputLength => ErrKind::BadLength,
    }
}

/// Outcome for one trimmed entry at 1-based `slot`: a desert tile for
/// the single token `desert`, a resource/number tile for a valid
/// two-token pair, the matching error otherwise.
pub open spec fn spec_parse_entry(entry: Seq<char>, slot: int) -> Result<Hex, ErrKind> {
    let toks = spec_tokens(entry);
    if toks.len() == 1 && lower_seq(toks[0]) == res_name(Resource::Desert) {
        Ok(
            Hex {
                id: slot as u8,
                q: template_q(slot - 1) as i32,
                r: template_r(slot - 1) as i32,
                res: Resource::Desert,
                num: None,
            },
        )
    } else if toks.len() == 2 {
        match resource_of(lower_seq(toks[0])) {
            Some(res) => match spec_parse_u8(toks[1]) {
                Some(n) => if num_token_valid(n) {
                    Ok(
                        Hex {
                            id: slot as u8,
                            q: template_q(slot - 1) as i32,
                            r: template_r(slot - 1) as i32,
                            res: res,
                            num: Some(n),
                        },
                    )
                } else {
                    Err(ErrKind::BadNumber(n))
                },
                None => Err(ErrKind::BadFormat(slot, entry)),
            },
            None => Err(ErrKind::BadResource(lower_seq(toks[0]))),
        }
    } else {
        Err(ErrKind::BadFormat(slot, entry))
    }
}

/// Outcome of the first `i` trimmed entries, in order; the first
/// failing entry decides.
pub open spec fn parse_prefix(entries: Seq<Seq<char>>, i: int) -> Result<Seq<Hex>, ErrKind>
    decreases i,
{
    if i <= 0 {
        Ok(Seq::empty())
    } else {
        match parse_prefix(entries, i - 1) {
            Err(e) => Err(e),
            Ok(pre) => match spec_parse_entry(entries[i - 1], i) {
                Ok(h) => Ok(pre.push(h)),
                Err(e) => Err(e),
            },
        }
    }
}

/// The trimmed comma-separated entries of the import text.
pub open spec fn spec_entries(s: Seq<char>) -> Seq<Seq<char>> {
    split_commas(s).map_values(|e: Seq<char>| spec_trim(e))
}

/// Outcome of a whole import: 19 entries parsed in slot order, or the
/// first error.
pub open spec fn spec_parse_import(s: Seq<char>) -> Result<Seq<Hex>, ErrKind> {
    let entries = spec_entries(s);
    if entries.len() != 19 {
        Err(ErrKind::BadLength)
    } else {
        parse_prefix(entries, 19)
    }
}

/// What the parser guarantees of every successful layout: 19 tiles in
/// slot order with the template's coordinates and valid numbers (an
/// explicit `desert <n>` entry may pair the desert kind with a number).
pub open spec fn parsed_wf(s: Seq<Hex>) -> bool {
    &&& s.len() == 19
    &&& forall|i: int|
        0 <= i < 19 ==> {
            &&& (#[trigger] s[i]).id == i + 1
            &&& s[i].q == template_q(i)
            &&& s[i].r == template_r(i)
            &&& (s[i].num matches Some(n) ==> num_token_valid(n))
            &&& (!(s[i].res is Desert) ==> s[i].num is Some)
        }
}

/// Mathematical reading of a list of character buffers.
pub open spec fn seqs_view(v: Seq<Vec<char>>) -> Seq<Seq<char>> {
    Seq::new(v.len(), |i: int| v[i]@)
}

/// The characters of a string slice, in order.
fn str_chars(s: &str) -> (v: Vec<char>)
    ensures
        v@ == s@,
{
    let n = s.unicode_len();
    let mut v: Vec<char> = Vec::new();
    let mut i: usize = 0;
    while i < n
        invariant
            n == s@.len(),
            i <= n,
            v@ =~= s@.take(i as int),
        decreases n - i,
    {
        v.push(s.get_char(i));
        i += 1;
    }
    proof {
        assert(v@ =~= s@);
    }
    v
}

/// Splitting always yields at least one segment.
pub proof fn lemma_split_len(s: Seq<char>)
    ensures
        split_commas(s).len() >= 1,
    decreases s.len(),
{
    if s.len() > 0 {
        lemma_split_len(s.drop_last());
    }
}

/// The comma-separated segments of `v`.
fn split_chars(v: &Vec<char>) -> (segs: Vec<Vec<char>>)
    ensures
        seqs_view(segs@) == split_commas(v@),
{
    let n = v.len();
    let mut segs: Vec<Vec<char>> = Vec::new();
    segs.push(Vec::new());
    let mut i: usize = 0;
    while i < n
        invariant
            n == v@.len(),
            i <= n,
            segs@.len() >= 1,
            seqs_view(segs@) =~= split_commas(v@.take(i as int)),
        decreases n - i,
    {
        let c = v[i];
        proof {
            assert(v@.take(i + 1).drop_last() =~= v@.take(i as int));
            assert(v@.take(i + 1).last() == v@[i as int]);
        }
        let ghost pre = seqs_view(segs@);
        if c == ',' {
            segs.push(Vec::new());
            proof {
                assert(seqs_view(segs@) =~= pre.push(Seq::empty()));
            }
        } else {
            let mut last = match segs.pop() {
                Some(l) => l,
                None => Vec::new(),
            };
            last.push(c);
            segs.push(last);
            proof {
                assert(seqs_view(segs@) =~= pre.update(pre.len() - 1, pre.last().push(c)));
            }
        }
        i += 1;
    }
    proof {
        assert(v@.take(n as int) =~= v@);
    }
    segs
}

/// If everything below `a` is whitespace and `a` is not (or is the
/// end), trimming the start drops exactly the first `a` characters.
proof fn lemma_trim_start_at(s: Seq<char>, a: int)
    requires
        0 <= a <= s.len(),
        forall|k: int| 0 <= k < a ==> is_space(#[trigger] s[k]),
        a == s.len() || !is_space(s[a]),
    ensures
        trim_start(s) == s.skip(a),
    decreases a,
{
    if a == 0 {
        assert(s.skip(0) =~= s);
    } else {
        let t = s.drop_first();
        assert forall|k: int| 0 <= k < a - 1 implies is_space(#[trigger] t[k]) by {
            assert(t[k] == s[k + 1]);
        }
        assert(a - 1 == t.len() || !is_space(t[a - 1]));
        lemma_trim_start_at(t, a - 1);
        assert(t.skip(a - 1) =~= s.skip(a));
    }
}

/// If everything from `b` on is whitespace and `b-1` is not (or `b` is
/// the start), trimming the end keeps exactly the first `b` characters.
proof fn lemma_trim_end_at(s: Seq<char>, b: int)
    requires
        0 <= b <= s.len(),
        forall|k: int| b <= k < s.len() ==> is_space(#[trigger] s[k]),
        b == 0 || !is_space(s[b - 1]),
    ensures
        trim_end(s) == s.take(b),
    decreases s.len() - b,
{
    if b == s.len() {
        assert(s.take(b) =~= s);
    } else {
        assert(is_space(s.last()));
        lemma_trim_end_at(s.drop_last(), b);
        assert(s.drop_last().take(b) =~= s.take(b));
    }
}

/// `v` with leading and trailing whitespace removed.
fn trim_chars(v: &Vec<char>) -> (t: Vec<char>)
    ensures
        t@ == spec_trim(v@),
{
    let n = v.len();
    let mut a: usize = 0;
    while a < n
        invariant
            n == v@.len(),
            a <= n,
            forall|k: int| 0 <= k < a ==> is_space(#[trigger] v@[k]),
        ensures
            a <= n,
            forall|k: int| 0 <= k < a ==> is_space(#[trigger] v@[k]),
            a == n || !is_space(v@[a as int]),
        decreases n - a,
    {
        let c = v[a];
        if !(c == ' ' || c == '\t' || c == '\n' || c == '\r' || c == '\u{b}' || c == '\u{c}') {
            break;
        }
        a += 1;
    }
    let mut b: usize = n;
    while b > a
        invariant
            n == v@.len(),
            a <= b <= n,
            forall|k: int| b <= k < n ==> is_space(#[trigger] v@[k]),
        ensures
            a <= b <= n,
            forall|k: int| b <= k < n ==> is_space(#[trigger] v@[k]),
            b == a || !is_space(v@[b - 1]),
        decreases b,
    {
        let c = v[b - 1];
        if !(c == ' ' || c == '\t' || c == '\n' || c == '\r' || c == '\u{b}' || c == '\u{c}') {
            break;
        }
        b -= 1;
    }
    proof {
        lemma_trim_start_at(v@, a as int);
        let s2 = v@.skip(a as int);
        assert forall|k: int| b - a <= k < s2.len() implies is_space(#[trigger] s2[k]) by {
            assert(s2[k] == v@[k + a]);
        }
        if b > a {
            assert(!is_space(s2[b - a - 1])) by {
                assert(s2[b - a - 1] == v@[b - 1]);
            }
        }
        lemma_trim_end_at(s2, b - a);
        assert(spec_trim(v@) =~= v@.subrange(a as int, b as int));
    }
    let mut t: Vec<char> = Vec::new();
    let mut k: usize = a;
    while k < b
        invariant
            n == v@.len(),
            a <= k <= b <= n,
            t@ =~= v@.subrange(a as int, k as int),
        decreases b - k,
    {
        t.push(v[k]);
        k += 1;
    }
    proof {
        assert(t@ =~= v@.subrange(a as int, b as int));
    }
    t
}

/// A buffer ending in a non-space character has at least one token.
proof fn lemma_tokens_nonempty(s: Seq<char>)
    requires
        s.len() > 0,
        !is_space(s.last()),
    ensures
        spec_tokens(s).len() > 0,
{
}

/// The whitespace-separated tokens of `v`.
fn tokens_chars(v: &Vec<char>) -> (ts: Vec<Vec<char>>)
    ensures
        seqs_view(ts@) == spec_tokens(v@),
{
    let n = v.len();
    let mut ts: Vec<Vec<char>> = Vec::new();
    let mut i: usize = 0;
    while i < n
        invariant
            n == v@.len(),
            i <= n,
            seqs_view(ts@) =~= spec_tokens(v@.take(i as int)),
        decreases n - i,
    {
        let c = v[i];
        proof {
            assert(v@.take(i + 1).drop_last() =~= v@.take(i as int));
            assert(v@.take(i + 1).last() == v@[i as int]);
        }
        let ghost pre = seqs_view(ts@);
        if !(c == ' ' || c == '\t' || c == '\n' || c == '\r' || c == '\u{b}' || c == '\u{c}') {
            if i > 0 && {
                let p = v[i - 1];
                !(p == ' ' || p == '\t' || p == '\n' || p == '\r' || p == '\u{b}' || p == '\u{c}')
            } {
                proof {
                    assert(v@.take(i as int).last() == v@[i - 1]);
                    lemma_tokens_nonempty(v@.take(i as int));
                }
                let mut last = match ts.pop() {
                    Some(l) => l,
                    None => Vec::new(),
                };
                last.push(c);
                ts.push(last);
                proof {
                    assert(seqs_view(ts@) =~= pre.update(pre.len() - 1, pre.last().push(c)));
                }
            } else {
                let mut tok: Vec<char> = Vec::new();
                tok.push(c);
                ts.push(tok);
                proof {
                    assert(seqs_view(ts@) =~= pre.push(seq![c]));
                }
            }
        }
        i += 1;
    }
    proof {
        assert(v@.take(n as int) =~= v@);
    }
    ts
}

/// `v` lowercased character by character.
fn lower_chars(v: &Vec<char>) -> (t: Vec<char>)
    ensures
        t@ == lower_seq(v@),
{
    let n = v.len();
    let mut t: Vec<char> = Vec::new();
    let mut i: usize = 0;
    while i < n
        invariant
            n == v@.len(),
            i <= n,
            t@.len() == i,
            forall|k: int| 0 <= k < i ==> t@[k] == lower_char(#[trigger] v@[k]),
        decreases n - i,
    {
        let c = v[i];
        let l = match c {
            'A' => 'a',
            'B' => 'b',
            'C' => 'c',
            'D' => 'd',
            'E' => 'e',
            'F' => 'f',
            'G' => 'g',
            'H' => 'h',
            'I' => 'i',
            'J' => 'j',
            'K' => 'k',
            'L' => 'l',
            'M' => 'm',
            'N' => 'n',
            'O' => 'o',
            'P' => 'p',
            'Q' => 'q',
            'R' => 'r',
            'S' => 's',
            'T' => 't',
            'U' => 'u',
            'V' => 'v',
            'W' => 'w',
            'X' => 'x',
            'Y' => 'y',
            'Z' => 'z',
            other => other,
        };
        t.push(l);
        i += 1;
    }
    proof {
        assert(t@ =~= lower_seq(v@));
    }
    t
}

/// Resolution of a lowercased token against the six resource names.
fn resource_from_lower(t: &Vec<char>) -> (r: Option<Resource>)
    ensures
        r == resource_of(t@),
{
    let n = t.len();
    if n == 4 && t[0] == 'w' && t[1] == 'o' && t[2] == 'o' && t[3] == 'd' {
        proof {
            assert(t@ =~= res_name(Resource::Wood));
        }
        Some(Resource::Wood)
    } else if n == 5 && t[0] == 'b' && t[1] == 'r' && t[2] == 'i' && t[3] == 'c' && t[4] == 'k' {
        proof {
            assert(t@ =~= res_name(Resource::Brick));
        }
        Some(Resource::Brick)
    } else if n == 5 && t[0] == 's' && t[1] == 'h' && t[2] == 'e' && t[3] == 'e' && t[4] == 'p' {
        proof {
            assert(t@ =~= res_name(Resource::Sheep));
        }
        Some(Resource::Sheep)
    } else if n == 5 && t[0] == 'w' && t[1] == 'h' && t[2] == 'e' && t[3] == 'a' && t[4] == 't' {
        proof {
            assert(t@ =~= res_name(Resource::Wheat));
        }
        Some(Resource::Wheat)
    } else if n == 3 && t[0] == 'o' && t[1] == 'r' && t[2] == 'e' {
        proof {
            assert(t@ =~= res_name(Resource::Ore));
        }
        Some(Resource::Ore)
    } else if n == 6 && t[0] == 'd' && t[1] == 'e' && t[2] == 's' && t[3] == 'e' && t[4] == 'r'
        && t[5] == 't' {
        proof {
            assert(t@ =~= res_name(Resource::Desert));
        }
        Some(Resource::Desert)
    } else {
        None
    }
}

/// Whether a lowercased token is exactly `desert`.
fn is_desert_name(t: &Vec<char>) -> (r: bool)
    ensures
        r == (t@ == res_name(Resource::Desert)),
{
    let n = t.len();
    if n == 6 && t[0] == 'd' && t[1] == 'e' && t[2] == 's' && t[3] == 'e' && t[4] == 'r' && t[5]
        == 't' {
        proof {
            assert(t@ =~= res_name(Resource::Desert));
        }
        true
    } else {
        false
    }
}

/// Number token parsing as `u8::from_str` accepts it: an optional
/// leading `+`, then digits, rejected on overflow past 255.
fn parse_u8_chars(t: &Vec<char>) -> (r: Option<u8>)
    ensures
        r == spec_parse_u8(t@),
{
    let n = t.len();
    let start: usize = if n > 0 && t[0] == '+' {
        1
    } else {
        0
    };
    let ghost digs = if t@.len() > 0 && t@[0] == '+' {
        t@.drop_first()
    } else {
        t@
    };
    proof {
        assert(digs =~= t@.skip(start as int));
    }
    if n == start {
        return None;
    }
    let mut acc: u32 = 0;
    let mut over = false;
    let mut k: usize = start;
    while k < n
        invariant
            n == t@.len(),
            start <= k <= n,
            digs =~= t@.skip(start as int),
            digs == (if t@.len() > 0 && t@[0] == '+' {
                t@.drop_first()
            } else {
                t@
            }),
            all_digits(digs.take(k - start)),
            !over ==> acc == digits_val(digs.take(k - start)) && acc <= 255,
            over ==> digits_val(digs.take(k - start)) > 255,
        decreases n - k,
    {
        let c = t[k];
        let d: u32 = match c {
            '0' => 0,
            '1' => 1,
            '2' => 2,
            '3' => 3,
            '4' => 4,
            '5' => 5,
            '6' => 6,
            '7' => 7,
            '8' => 8,
            '9' => 9,
            _ => {
                proof {
                    assert(0 <= k - start < digs.len());
                    assert(digs[k - start] == t@[k as int]);
                    assert(!is_digit(digs[k - start]));
                    assert(!all_digits(digs));
                    assert(spec_parse_u8(t@) is None);
                }
                return None;
            },
        };
        proof {
            assert(is_digit(c) && d == digit_val(c));
        }
        proof {
            let pre = digs.take(k - start);
            let cur = digs.take(k - start + 1);
            assert(cur.drop_last() =~= pre);
            assert(cur.last() == digs[k - start]);
            assert(digs[k - start] == t@[k as int]);
        }
        if !over {
            acc = acc * 10 + d;
            if acc > 255 {
                over = true;
            }
        }
        k += 1;
    }
    proof {
        assert(digs.take(n - start) =~= digs);
    }
    if over {
        None
    } else {
        Some(acc as u8)
    }
}

/// A `String` with exactly the characters of `v`.
fn chars_to_string(v: &Vec<char>) -> (s: String)
    ensures
        s@ == v@,
{
    let n = v.len();
    let mut s = String::new();
    let mut i: usize = 0;
    while i < n
        invariant
            n == v@.len(),
            i <= n,
            s@ =~= v@.take(i as int),
        decreases n - i,
    {
        crate::format::push_char(&mut s, v[i]);
        i += 1;
    }
    proof {
        assert(s@ =~= v@);
    }
    s
}

/// A failed entry decides every longer prefix: errors propagate.
proof fn lemma_parse_prefix_err(entries: Seq<Seq<char>>, i: int, j: int)
    requires
        0 <= i <= j,
        parse_prefix(entries, i) is Err,
    ensures
        parse_prefix(entries, j) == parse_prefix(entries, i),
    decreases j - i,
{
    if j > i {
        lemma_parse_prefix_err(entries, i, j - 1);
    }
}

/// Parses the import text into a 19-tile layout, or the first error.
///
/// The outcome agrees exactly with the character-level model
/// [`spec_parse_import`]; a successful layout additionally satisfies
/// [`parsed_wf`].
pub fn parse_import(text: &str) -> (r: Result<Vec<Hex>, InputHexParseError>)
    ensures
        r matches Ok(v) ==> spec_parse_import(text@) == Ok::<Seq<Hex>, ErrKind>(v@) && parsed_wf(
            v@,
        ),
        r matches Err(e) ==> spec_parse_import(text@) == Err::<Seq<Hex>, ErrKind>(err_view(e)),
{
    let chars = str_chars(text);
    let entries_raw = split_chars(&chars);
    let ghost sentries = spec_entries(text@);
    proof {
        assert(sentries.len() == split_commas(text@).len());
    }
    if entries_raw.len() != 19 {
        return Err(InputHexParseError::InvalidInputLength);
    }
    let mut result: Vec<Hex> = Vec::new();
    let mut i: usize = 0;
    while i < 19
        invariant
            i <= 19,
            sentries == spec_entries(text@),
            sentries.len() == 19,
            entries_raw@.len() == 19,
            seqs_view(entries_raw@) == split_commas(text@),
            parse_prefix(sentries, i as int) == Ok::<Seq<Hex>, ErrKind>(result@),
            result@.len() == i,
            forall|k: int|
                0 <= k < i ==> {
                    &&& (#[trigger] result@[k]).id == k + 1
                    &&& result@[k].q == template_q(k)
                    &&& result@[k].r == template_r(k)
                    &&& (result@[k].num matches Some(m) ==> num_token_valid(m))
                    &&& (!(result@[k].res is Desert) ==> result@[k].num is Some)
                },
        decreases 19 - i,
    {
        let trimmed = trim_chars(&entries_raw[i]);
        proof {
            assert(sentries[i as int] == spec_trim(split_commas(text@)[i as int]));
            assert(split_commas(text@)[i as int] == entries_raw@[i as int]@);
            assert(trimmed@ == sentries[i as int]);
        }
        let ghost entry = sentries[i as int];
        let ghost slot = i + 1 as int;
        let toks = tokens_chars(&trimmed);
        let ghost stoks = spec_tokens(entry);
        let mut err: Option<InputHexParseError> = None;
        if toks.len() == 1 {
            let low = lower_chars(&toks[0]);
            proof {
                assert(stoks[0] == toks@[0]@);
            }
            if is_desert_name(&low) {
                let (q, r) = crate::board::slot_coords(i);
                result.push(
                    Hex { id: (i + 1) as u8, q, r, res: Resource::Desert, num: None },
                );
                proof {
                    assert(spec_parse_entry(entry, slot) == Ok::<Hex, ErrKind>(
                        result@.last(),
                    ));
                }
            } else {
                err = Some(InputHexParseError::InvalidFormat(i + 1, chars_to_string(&trimmed)));
                proof {
                    assert(spec_parse_entry(entry, slot) == Err::<Hex, ErrKind>(
                        ErrKind::BadFormat(slot, entry),
                    ));
                }
            }
        } else if toks.len() == 2 {
            let low = lower_chars(&toks[0]);
            proof {
                assert(stoks[0] == toks@[0]@);
                assert(stoks[1] == toks@[1]@);
            }
            match resource_from_lower(&low) {
                Some(res) => {
                    match parse_u8_chars(&toks[1]) {
                        Some(n) => {
                            if 2 <= n && n <= 12 && n != 7 {
                                let (q, r) = crate::board::slot_coords(i);
                                result.push(
                                    Hex { id: (i + 1) as u8, q, r, res, num: Some(n) },
                                );
                                proof {
                                    assert(spec_parse_entry(entry, slot) == Ok::<
                                        Hex,
                                        ErrKind,
                                    >(result@.last()));
                                }
                            } else {
                                err = Some(InputHexParseError::InvalidNumber(n));
                                proof {
                                    assert(spec_parse_entry(entry, slot) == Err::<
                                        Hex,
                                        ErrKind,
                                    >(ErrKind::BadNumber(n)));
                                }
                            }
                        },
                        None => {
                            err = Some(
                                InputHexParseError::InvalidFormat(
                                    i + 1,
                                    chars_to_string(&trimmed),
                                ),
                            );
                            proof {
                                assert(spec_parse_entry(entry, slot) == Err::<Hex, ErrKind>(
                                    ErrKind::BadFormat(slot, entry),
                                ));
                            }
                        },
                    }
                },
                None => {
                    err = Some(InputHexParseError::InvalidResource(chars_to_string(&low)));
                    proof {
                        assert(spec_parse_entry(entry, slot) == Err::<Hex, ErrKind>(
                            ErrKind::BadResource(lower_seq(stoks[0])),
                        ));
                    }
                },
            }
        } else {
            err = Some(InputHexParseError::InvalidFormat(i + 1, chars_to_string(&trimmed)));
            proof {
                assert(spec_parse_entry(entry, slot) == Err::<Hex, ErrKind>(
                    ErrKind::BadFormat(slot, entry),
                ));
            }
        }
        match err {
            Some(e) => {
                proof {
                    assert(parse_prefix(sentries, i + 1 as int) == Err::<Seq<Hex>, ErrKind>(
                        err_view(e),
                    ));
                    lemma_parse_prefix_err(sentries, i + 1 as int, 19);
                }
                return Err(e);
            },
            None => {
                proof {
                    assert(parse_prefix(sentries, i + 1 as int) == Ok::<Seq<Hex>, ErrKind>(
                        result@,
                    ));
                }
            },
        }
        i += 1;
    }
    Ok(result)
}

} // verus!
