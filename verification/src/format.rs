//! Formatting a layout back into import text, human-readable error
//! messages, and the round-trip law: parsing a formatted layout
//! reproduces it.

use vstd::prelude::*;

verus! {

use crate::board::{layout_wf, num_token_valid, tile_wf, Hex, Resource};
use crate::parser::{
    all_digits, digit_val, digits_val, err_view, is_digit, is_space, lower_char, lower_seq,
    parse_prefix, res_name, resource_of, spec_entries, spec_parse_entry, spec_parse_import,
    spec_parse_u8, spec_tokens, spec_trim, split_commas, trim_end, trim_start, ErrKind,
    InputHexParseError,
};
use vstd::string::StringExecFns;

/// The decimal digit character for `d` (0..=9).
pub open spec fn digit_char(d: int) -> char {
    if d == 0 {
        '0'
    } else if d == 1 {
        '1'
    } else if d == 2 {
        '2'
    } else if d == 3 {
        '3'
    } else if d == 4 {
        '4'
    } else if d == 5 {
        '5'
    } else if d == 6 {
        '6'
    } else if d == 7 {
        '7'
    } else if d == 8 {
        '8'
    } else {
        '9'
    }
}

/// Decimal representation of a non-negative number, most significant
/// digit first.
pub open spec fn dec_rep(n: int) -> Seq<char>
    recommends
        n >= 0,
    decreases n,
{
    if n < 10 {
        seq![digit_char(n)]
    } else {
        dec_rep(n / 10).push(digit_char(n % 10))
    }
}

/// The import-text form of one tile: `desert`, or `<name> <number>`.
pub open spec fn format_tile(h: Hex) -> Seq<char> {
    if h.res is Desert {
        res_name(Resource::Desert)
    } else {
        res_name(h.res) + seq![' '] + dec_rep(
            match h.num {
                Some(n) => n as int,
                None => 0,
            },
        )
    }
}

/// The import text of a layout: tiles in slot order, joined by
/// a comma and a space.
pub open spec fn spec_format(s: Seq<Hex>) -> Seq<char>
    decreases s.len(),
{
    if s.len() == 0 {
        Seq::empty()
    } else if s.len() == 1 {
        format_tile(s[0])
    } else {
        spec_format(s.drop_last()) + seq![','] + seq![' '] + format_tile(s.last())
    }
}

/// Whether every tile can be written out: a tile that is not desert
/// carries a valid number token.
pub open spec fn formattable(s: Seq<Hex>) -> bool {
    forall|i: int|
        0 <= i < s.len() ==> {
            !((#[trigger] s[i]).res is Desert) ==> (s[i].num matches Some(n)
                && num_token_valid(n))
        }
}

/// The exec digit character for `d`.
fn digit_char_x(d: u64) -> (c: char)
    requires
        d < 10,
    ensures
        c == digit_char(d as int),
{
    match d {
        0 => '0',
        1 => '1',
        2 => '2',
        3 => '3',
        4 => '4',
        5 => '5',
        6 => '6',
        7 => '7',
        8 => '8',
        _ => '9',
    }
}

/// Relies on `String::push`: appends exactly the one character.
#[verifier::external_body]
pub(crate) fn push_char(s: &mut String, c: char)
    ensures
        final(s)@ == old(s)@.push(c),
{
    s.push(c);
}

/// The decimal digits of `n`.
pub fn dec_u64(n: u64) -> (s: String)
    ensures
        s@ == dec_rep(n as int),
    decreases n,
{
    if n < 10 {
        let mut s = String::new();
        push_char(&mut s, digit_char_x(n));
        proof {
            assert(s@ =~= dec_rep(n as int));
        }
        s
    } else {
        let mut s = dec_u64(n / 10);
        push_char(&mut s, digit_char_x(n % 10));
        proof {
            assert(s@ =~= dec_rep(n as int));
        }
        s
    }
}

/// The import-text name of a resource.
fn append_res_name(out: &mut String, r: Resource)
    ensures
        final(out)@ == old(out)@ + res_name(r),
{
    match r {
        Resource::Wood => {
            out.append("wood");
            proof {
                reveal_strlit("wood");
                assert("wood"@ =~= res_name(Resource::Wood));
            }
        },
        Resource::Brick => {
            out.append("brick");
            proof {
                reveal_strlit("brick");
                assert("brick"@ =~= res_name(Resource::Brick));
            }
        },
        Resource::Sheep => {
            out.append("sheep");
            proof {
                reveal_strlit("sheep");
                assert("sheep"@ =~= res_name(Resource::Sheep));
            }
        },
        Resource::Wheat => {
            out.append("wheat");
            proof {
                reveal_strlit("wheat");
                assert("wheat"@ =~= res_name(Resource::Wheat));
            }
        },
        Resource::Ore => {
            out.append("ore");
            proof {
                reveal_strlit("ore");
                assert("ore"@ =~= res_name(Resource::Ore));
            }
        },
        Resource::Desert => {
            out.append("desert");
            proof {
                reveal_strlit("desert");
                assert("desert"@ =~= res_name(Resource::Desert));
            }
        },
    }
}

/// Writes a layout as import text: entries in slot order, separated by
/// `", "`; re-parsing the result reproduces the layout (see
/// [`lemma_format_parse_round_trip`]).
pub fn format_layout(hexes: &Vec<Hex>) -> (out: String)
    requires
        formattable(hexes@),
    ensures
        out@ == spec_format(hexes@),
{
    let n = hexes.len();
    let mut out = String::new();
    let mut i: usize = 0;
    while i < n
        invariant
            n == hexes@.len(),
            i <= n,
            formattable(hexes@),
            out@ =~= spec_format(hexes@.take(i as int)),
        decreases n - i,
    {
        if i > 0 {
            out.append(", ");
            proof {
                reveal_strlit(", ");
                assert(", "@ =~= seq![','] + seq![' ']);
            }
        }
        let h = &hexes[i];
        match h.res {
            Resource::Desert => {
                append_res_name(&mut out, Resource::Desert);
            },
            _ => {
                append_res_name(&mut out, h.res);
                push_char(&mut out, ' ');
                let num = match h.num {
                    Some(m) => m,
                    None => 2,
                };
                let digits = dec_u64(num as u64);
                out.append(digits.as_str());
            },
        }
        proof {
            let cur = hexes@.take(i + 1);
            assert(cur.drop_last() =~= hexes@.take(i as int));
            assert(cur.last() == hexes@[i as int]);
            assert(out@ =~= spec_format(cur));
        }
        i += 1;
    }
    proof {
        assert(hexes@.take(n as int) =~= hexes@);
    }
    out
}

/// The display string of a parse error.
pub open spec fn spec_message(e: InputHexParseError) -> Seq<char> {
    match e {
        InputHexParseError::InvalidResource(s) => "resource with name '"@ + s@
            + "' doesn't exist."@,
        InputHexParseError::InvalidNumber(n) => "number '"@ + dec_rep(n as int) + "' is invalid."@,
        InputHexParseError::InvalidFormat(slot, s) => "invalid hex format at tile "@ + dec_rep(
            slot as int,
        ) + ": '"@ + s@ + "'"@,
        InputHexParseError::InvalidInputLength => "board must have exactly 19 tiles."@,
    }
}

/// The display string an error model denotes.
pub open spec fn kind_message(k: ErrKind) -> Seq<char> {
    match k {
        ErrKind::BadResource(s) => "resource with name '"@ + s + "' doesn't exist."@,
        ErrKind::BadNumber(n) => "number '"@ + dec_rep(n as int) + "' is invalid."@,
        ErrKind::BadFormat(slot, s) => "invalid hex format at tile "@ + dec_rep(slot) + ": '"@ + s
            + "'"@,
        ErrKind::BadLength => "board must have exactly 19 tiles."@,
    }
}

/// An error's message depends only on the model it denotes.
pub proof fn lemma_message_of_kind(e: InputHexParseError)
    ensures
        spec_message(e) == kind_message(err_view(e)),
{
}

impl InputHexParseError {
    /// The human-readable message shown for this error.
    pub fn message(&self) -> (m: String)
        ensures
            m@ == spec_message(*self),
    {
        match self {
            InputHexParseError::InvalidResource(s) => {
                let mut m = String::new();
                m.append("resource with name '");
                m.append(s.as_str());
                m.append("' doesn't exist.");
                proof {
                    assert(m@ =~= spec_message(*self));
                }
                m
            },
            InputHexParseError::InvalidNumber(n) => {
                let mut m = String::new();
                m.append("number '");
                let d = dec_u64(*n as u64);
                m.append(d.as_str());
                m.append("' is invalid.");
                proof {
                    assert(m@ =~= spec_message(*self));
                }
                m
            },
            InputHexParseError::InvalidFormat(slot, s) => {
                let mut m = String::new();
                m.append("invalid hex format at tile ");
                let d = dec_u64(*slot as u64);
                m.append(d.as_str());
                m.append(": '");
                m.append(s.as_str());
                m.append("'");
                proof {
                    assert(m@ =~= spec_message(*self));
                }
                m
            },
            InputHexParseError::InvalidInputLength => {
                let mut m = String::new();
                m.append("board must have exactly 19 tiles.");
                proof {
                    assert(m@ =~= spec_message(*self));
                }
                m
            },
        }
    }
}

/// No character of `s` is a comma.
pub open spec fn no_comma(s: Seq<char>) -> bool {
    forall|i: int| 0 <= i < s.len() ==> (#[trigger] s[i]) != ','
}

/// No character of `s` is whitespace.
pub open spec fn no_space(s: Seq<char>) -> bool {
    forall|i: int| 0 <= i < s.len() ==> !is_space(#[trigger] s[i])
}

/// Resource names are non-empty and free of separators.
proof fn lemma_res_name_chars(r: Resource)
    ensures
        res_name(r).len() > 0,
        no_space(res_name(r)),
        no_comma(res_name(r)),
{
    match r {
        Resource::Wood => {
            assert forall|i: int| 0 <= i < res_name(r).len() implies !is_space(
                #[trigger] res_name(r)[i],
            ) && res_name(r)[i] != ',' by {}
        },
        Resource::Brick => {
            assert forall|i: int| 0 <= i < res_name(r).len() implies !is_space(
                #[trigger] res_name(r)[i],
            ) && res_name(r)[i] != ',' by {}
        },
        Resource::Sheep => {
            assert forall|i: int| 0 <= i < res_name(r).len() implies !is_space(
                #[trigger] res_name(r)[i],
            ) && res_name(r)[i] != ',' by {}
        },
        Resource::Wheat => {
            assert forall|i: int| 0 <= i < res_name(r).len() implies !is_space(
                #[trigger] res_name(r)[i],
            ) && res_name(r)[i] != ',' by {}
        },
        Resource::Ore => {
            assert forall|i: int| 0 <= i < res_name(r).len() implies !is_space(
                #[trigger] res_name(r)[i],
            ) && res_name(r)[i] != ',' by {}
        },
        Resource::Desert => {
            assert forall|i: int| 0 <= i < res_name(r).len() implies !is_space(
                #[trigger] res_name(r)[i],
            ) && res_name(r)[i] != ',' by {}
        },
    }
}

/// Decimal representations are non-empty digit strings.
proof fn lemma_dec_rep_digits(n: int)
    requires
        n >= 0,
    ensures
        dec_rep(n).len() >= 1,
        all_digits(dec_rep(n)),
    decreases n,
{
    if n < 10 {
    } else {
        lemma_dec_rep_digits(n / 10);
        let pre = dec_rep(n / 10);
        let cur = dec_rep(n);
        assert forall|i: int| 0 <= i < cur.len() implies is_digit(#[trigger] cur[i]) by {
            if i < pre.len() {
                assert(cur[i] == pre[i]);
            }
        }
    }
}

/// A tile's text is non-empty, has no commas, and neither starts nor
/// ends with whitespace.
proof fn lemma_format_tile_chars(h: Hex)
    ensures
        format_tile(h).len() > 0,
        no_comma(format_tile(h)),
        !is_space(format_tile(h)[0]),
        !is_space(format_tile(h).last()),
{
    let t = format_tile(h);
    lemma_res_name_chars(h.res);
    lemma_res_name_chars(Resource::Desert);
    if h.res is Desert {
    } else {
        let nm = res_name(h.res);
        let nv = match h.num {
            Some(n) => n as int,
            None => 0,
        };
        lemma_dec_rep_digits(nv);
        let dr = dec_rep(nv);
        assert(t =~= nm + seq![' '] + dr);
        assert forall|i: int| 0 <= i < t.len() implies (#[trigger] t[i]) != ',' by {
            if i < nm.len() {
                assert(t[i] == nm[i]);
            } else if i == nm.len() {
                assert(t[i] == ' ');
            } else {
                assert(t[i] == dr[i - nm.len() - 1]);
                assert(is_digit(dr[i - nm.len() - 1]));
            }
        }
        assert(t[0] == nm[0]);
        assert(t.last() == dr[dr.len() - 1]);
        assert(is_digit(dr[dr.len() - 1]));
    }
}

/// Appending comma-free text extends the final segment of a split.
proof fn lemma_split_append_nocomma(x: Seq<char>, seg: Seq<char>)
    requires
        no_comma(seg),
    ensures
        split_commas(x + seg) =~= split_commas(x).update(
            split_commas(x).len() - 1,
            split_commas(x).last() + seg,
        ),
    decreases seg.len(),
{
    crate::parser::lemma_split_len(x);
    if seg.len() == 0 {
        assert(x + seg =~= x);
        assert(split_commas(x).last() + seg =~= split_commas(x).last());
        assert(split_commas(x).update(
            split_commas(x).len() - 1,
            split_commas(x).last() + seg,
        ) =~= split_commas(x));
    } else {
        let seg0 = seg.drop_last();
        let c = seg.last();
        assert(c != ',');
        assert forall|i: int| 0 <= i < seg0.len() implies (#[trigger] seg0[i]) != ',' by {
            assert(seg0[i] == seg[i]);
        }
        lemma_split_append_nocomma(x, seg0);
        assert(x + seg =~= (x + seg0).push(c));
        assert(((x + seg0).push(c)).drop_last() =~= x + seg0);
        let rest = split_commas(x + seg0);
        crate::parser::lemma_split_len(x + seg0);
        assert(split_commas((x + seg0).push(c)) == rest.update(
            rest.len() - 1,
            rest.last().push(c),
        ));
        assert(rest.last().push(c) =~= split_commas(x).last() + seg);
        assert(split_commas(x + seg) =~= split_commas(x).update(
            split_commas(x).len() - 1,
            split_commas(x).last() + seg,
        ));
    }
}

/// A trailing comma opens a fresh empty segment.
proof fn lemma_split_push_comma(x: Seq<char>)
    ensures
        split_commas(x.push(',')) == split_commas(x).push(Seq::empty()),
{
    assert(x.push(',').drop_last() =~= x);
}

/// Entry `i` of the formatted text: the first tile bare, later tiles
/// with the joining space still attached.
pub open spec fn format_entry(s: Seq<Hex>, i: int) -> Seq<char> {
    if i == 0 {
        format_tile(s[0])
    } else {
        seq![' '] + format_tile(s[i])
    }
}

/// Splitting a formatted layout on commas recovers one entry per tile.
proof fn lemma_split_format(s: Seq<Hex>)
    requires
        s.len() >= 1,
    ensures
        split_commas(spec_format(s)) =~= Seq::new(s.len(), |i: int| format_entry(s, i)),
    decreases s.len(),
{
    if s.len() == 1 {
        lemma_format_tile_chars(s[0]);
        assert(Seq::empty() + format_tile(s[0]) =~= format_tile(s[0]));
        lemma_split_append_nocomma(Seq::empty(), format_tile(s[0]));
        assert(split_commas(Seq::empty()) == seq![Seq::<char>::empty()]);
        assert(split_commas(spec_format(s)) =~= Seq::new(s.len(), |i: int| format_entry(s, i)));
    } else {
        let s0 = s.drop_last();
        lemma_split_format(s0);
        let f0 = spec_format(s0);
        let last_tile = format_tile(s.last());
        lemma_format_tile_chars(s.last());
        let seg = seq![' '] + last_tile;
        assert forall|i: int| 0 <= i < seg.len() implies (#[trigger] seg[i]) != ',' by {
            if i > 0 {
                assert(seg[i] == last_tile[i - 1]);
            }
        }
        assert(spec_format(s) =~= (f0.push(',')) + seg);
        lemma_split_push_comma(f0);
        lemma_split_append_nocomma(f0.push(','), seg);
        crate::parser::lemma_split_len(f0);
        let pieces = split_commas(f0).push(Seq::<char>::empty());
        assert(pieces.last() + seg =~= seg);
        assert(split_commas(spec_format(s)) =~= split_commas(f0).push(seg));
        assert forall|i: int| 0 <= i < s.len() implies split_commas(f0).push(seg)[i]
            == format_entry(s, i) by {
            if i < s.len() - 1 {
                assert(split_commas(f0)[i] == format_entry(s0, i));
                assert(s0[i] == s[i]);
            }
        }
        assert(split_commas(spec_format(s)) =~= Seq::new(s.len(), |i: int| format_entry(s, i)));
    }
}

/// Trimming an entry of the formatted text leaves exactly the tile
/// text.
proof fn lemma_trim_format_entry(s: Seq<Hex>, i: int)
    requires
        0 <= i < s.len(),
    ensures
        spec_trim(format_entry(s, i)) == format_tile(s[i]),
{
    let ft = format_tile(s[i]);
    lemma_format_tile_chars(s[i]);
    if i == 0 {
        assert(trim_start(ft) == ft);
        assert(trim_end(ft) == ft);
    } else {
        let e = seq![' '] + ft;
        assert(is_space(e[0]));
        assert(e.drop_first() =~= ft);
        assert(trim_start(e) == trim_start(ft));
        assert(trim_start(ft) == ft);
        assert(trim_end(ft) == ft);
    }
}

/// A run of non-whitespace characters is one token.
proof fn lemma_tokens_single(t: Seq<char>)
    requires
        t.len() > 0,
        no_space(t),
    ensures
        spec_tokens(t) =~= seq![t],
    decreases t.len(),
{
    if t.len() == 1 {
        reveal_with_fuel(spec_tokens, 2);
        assert(t.drop_last() =~= Seq::<char>::empty());
        assert(seq![t.last()] =~= t);
    } else {
        let t0 = t.drop_last();
        assert forall|i: int| 0 <= i < t0.len() implies !is_space(#[trigger] t0[i]) by {
            assert(t0[i] == t[i]);
        }
        lemma_tokens_single(t0);
        assert(!is_space(t[t.len() - 2]));
        assert(t0.push(t.last()) =~= t);
        let rest = spec_tokens(t0);
        assert(rest == seq![t0]);
        assert(rest.update(rest.len() - 1, rest.last().push(t.last())) =~= seq![t]);
    }
}

/// Two runs joined by one space are exactly two tokens.
proof fn lemma_tokens_pair(a: Seq<char>, b: Seq<char>)
    requires
        a.len() > 0,
        b.len() > 0,
        no_space(a),
        no_space(b),
    ensures
        spec_tokens(a + seq![' '] + b) =~= seq![a, b],
    decreases b.len(),
{
    if b.len() == 1 {
        let s = a + seq![' '] + b;
        assert(s.last() == b[0]);
        assert(!is_space(s.last()));
        assert(s[s.len() - 2] == ' ');
        assert(s.drop_last() =~= a.push(' '));
        assert((a.push(' ')).drop_last() =~= a);
        assert(is_space(a.push(' ').last()));
        lemma_tokens_single(a);
        assert(spec_tokens(a.push(' ')) =~= seq![a]);
        assert(seq![b[0]] =~= b);
        assert(spec_tokens(s) =~= seq![a, b]);
    } else {
        let b0 = b.drop_last();
        let c = b.last();
        assert forall|i: int| 0 <= i < b0.len() implies !is_space(#[trigger] b0[i]) by {
            assert(b0[i] == b[i]);
        }
        lemma_tokens_pair(a, b0);
        let s0 = a + seq![' '] + b0;
        let s = a + seq![' '] + b;
        assert(s =~= s0.push(c));
        assert(s0.push(c).drop_last() =~= s0);
        assert(!is_space(c));
        assert(s0.push(c)[s0.push(c).len() - 2] == b0.last());
        assert(!is_space(b0.last()));
        assert(b0.push(c) =~= b);
        assert(seq![a, b0].update(1int, b0.push(c)) =~= seq![a, b]);
        assert(spec_tokens(s) =~= seq![a, b]);
    }
}

/// Resource names are already lowercase.
proof fn lemma_lower_res_name(r: Resource)
    ensures
        lower_seq(res_name(r)) =~= res_name(r),
{
    match r {
        Resource::Wood => {
            assert(lower_seq(res_name(r)) =~= res_name(r));
        },
        Resource::Brick => {
            assert(lower_seq(res_name(r)) =~= res_name(r));
        },
        Resource::Sheep => {
            assert(lower_seq(res_name(r)) =~= res_name(r));
        },
        Resource::Wheat => {
            assert(lower_seq(res_name(r)) =~= res_name(r));
        },
        Resource::Ore => {
            assert(lower_seq(res_name(r)) =~= res_name(r));
        },
        Resource::Desert => {
            assert(lower_seq(res_name(r)) =~= res_name(r));
        },
    }
}

/// Each resource's own name resolves back to it.
proof fn lemma_resource_of_name(r: Resource)
    ensures
        resource_of(res_name(r)) == Some(r),
{
    match r {
        Resource::Wood => {
        },
        Resource::Brick => {
        },
        Resource::Sheep => {
        },
        Resource::Wheat => {
        },
        Resource::Ore => {
        },
        Resource::Desert => {
        },
    }
}

/// The decimal digits of `n` evaluate back to `n`.
proof fn lemma_digits_val_dec_rep(n: int)
    requires
        n >= 0,
    ensures
        digits_val(dec_rep(n)) == n,
    decreases n,
{
    if n < 10 {
        reveal_with_fuel(digits_val, 2);
        assert(seq![digit_char(n)].drop_last() =~= Seq::<char>::empty());
        assert(digits_val(seq![digit_char(n)]) == digit_val(digit_char(n)));
        assert(digit_val(digit_char(n)) == n);
    } else {
        lemma_digits_val_dec_rep(n / 10);
        lemma_dec_rep_digits(n / 10);
        let cur = dec_rep(n);
        assert(cur.drop_last() =~= dec_rep(n / 10));
        assert(cur.last() == digit_char(n % 10));
        assert(0 <= n % 10 <= 9);
        assert(digit_val(digit_char(n % 10)) == n % 10);
        assert(digits_val(cur) == digits_val(dec_rep(n / 10)) * 10 + digit_val(digit_char(n % 10)));
        assert(n / 10 * 10 + n % 10 == n);
    }
}

/// Formatted numbers parse back: `dec_rep(n)` is a valid number token
/// for `n` up to 255.
proof fn lemma_parse_u8_dec_rep(n: int)
    requires
        0 <= n <= 255,
    ensures
        spec_parse_u8(dec_rep(n)) == Some(n as u8),
{
    lemma_dec_rep_digits(n);
    lemma_digits_val_dec_rep(n);
    let s = dec_rep(n);
    assert(is_digit(s[0]));
    assert(s[0] != '+');
}

/// Parsing the text of a well-formed tile yields the tile back.
proof fn lemma_parse_format_tile(h: Hex, i: int)
    requires
        0 <= i < 19,
        tile_wf(h, i),
    ensures
        spec_parse_entry(format_tile(h), i + 1) == Ok::<Hex, ErrKind>(h),
{
    lemma_res_name_chars(h.res);
    lemma_lower_res_name(h.res);
    lemma_resource_of_name(h.res);
    if h.res is Desert {
        lemma_tokens_single(res_name(Resource::Desert));
    } else {
        let n = match h.num {
            Some(n) => n as int,
            None => 0,
        };
        lemma_dec_rep_digits(n);
        let dr = dec_rep(n);
        assert forall|k: int| 0 <= k < dr.len() implies !is_space(#[trigger] dr[k]) by {
            assert(is_digit(dr[k]));
        }
        lemma_tokens_pair(res_name(h.res), dr);
        lemma_parse_u8_dec_rep(n);
        let toks = spec_tokens(format_tile(h));
        assert(toks[0] == res_name(h.res));
        assert(toks[1] == dr);
        assert(!(toks.len() == 1));
    }
}

/// Round trip: parsing the formatted text of any well-formed layout
/// succeeds and reproduces the layout, slot for slot.
pub proof fn lemma_format_parse_round_trip(s: Seq<Hex>)
    requires
        layout_wf(s),
    ensures
        spec_parse_import(spec_format(s)) == Ok::<Seq<Hex>, ErrKind>(s),
{
    lemma_split_format(s);
    let entries = spec_entries(spec_format(s));
    assert(entries.len() == 19);
    assert forall|k: int| 0 <= k < 19 implies #[trigger] entries[k] == format_tile(s[k]) by {
        assert(split_commas(spec_format(s))[k] == format_entry(s, k));
        lemma_trim_format_entry(s, k);
    }
    lemma_parse_prefix_format(s, entries, 19);
    assert(s.take(19) =~= s);
}

/// Entry-by-entry induction for the round trip.
proof fn lemma_parse_prefix_format(s: Seq<Hex>, entries: Seq<Seq<char>>, i: int)
    requires
        layout_wf(s),
        entries.len() == 19,
        forall|k: int| 0 <= k < 19 ==> #[trigger] entries[k] == format_tile(s[k]),
        0 <= i <= 19,
    ensures
        parse_prefix(entries, i) == Ok::<Seq<Hex>, ErrKind>(s.take(i)),
    decreases i,
{
    if i == 0 {
        assert(s.take(0) =~= Seq::<Hex>::empty());
    } else {
        lemma_parse_prefix_format(s, entries, i - 1);
        lemma_parse_format_tile(s[i - 1], i - 1);
        assert(s.take(i - 1).push(s[i - 1]) =~= s.take(i));
    }
}

} // verus!
