//! What parsing a GBNF grammar text produces, as spec functions over its bytes.
use vstd::prelude::*;
use crate::error::ErrorView;
use crate::symbols::{insert, lookup};
use crate::text::{bytes_as_chars, dec_chars};
use crate::types::{Element, ElementType};

verus! {

/// Largest count accepted in a `{n}`, `{n,}` or `{n,m}` repetition.
pub const MAX_REPETITION_THRESHOLD: u64 = 2000;

/// The parser's state: the symbol table (in key order) and the rules built so far.
pub struct ParseState {
    pub syms: Seq<(Seq<char>, u32)>,
    pub rules: Seq<Seq<Element>>,
}

pub open spec fn perr(msg: Seq<char>) -> ErrorView {
    ErrorView::ParseError(msg)
}

pub open spec fn at_pos(prefix: Seq<char>, pos: int) -> Seq<char> {
    prefix + dec_chars(pos as nat)
}

// ── Lexical layer ───────────────────────────────────────────────────

/// `[a-zA-Z0-9_-]`
pub open spec fn is_word_byte(c: u8) -> bool {
    (97 <= c <= 122) || (65 <= c <= 90) || c == 45 || c == 95 || (48 <= c <= 57)
}

pub open spec fn is_digit_byte(c: u8) -> bool {
    48 <= c <= 57
}

/// First position at or after `pos` holding a line break, or the end.
pub open spec fn comment_end(src: Seq<u8>, pos: int) -> int
    decreases src.len() - pos,
{
    if 0 <= pos < src.len() && src[pos] != 13 && src[pos] != 10 {
        comment_end(src, pos + 1)
    } else {
        pos
    }
}

pub proof fn lemma_comment_end(src: Seq<u8>, pos: int)
    requires
        0 <= pos <= src.len(),
    ensures
        pos <= comment_end(src, pos) <= src.len(),
    decreases src.len() - pos,
{
    if pos < src.len() && src[pos] != 13 && src[pos] != 10 {
        lemma_comment_end(src, pos + 1);
    }
}

/// First position at or after `pos` that is not blank and not in a `#` comment;
/// line breaks count as blank only when `nl` holds.
pub open spec fn space_end(src: Seq<u8>, pos: int, nl: bool) -> int
    decreases src.len() - pos,
{
    if 0 <= pos < src.len() {
        let c = src[pos];
        if c == 32 || c == 9 || (nl && (c == 13 || c == 10)) {
            space_end(src, pos + 1, nl)
        } else if c == 35 {
            proof {
                lemma_comment_end(src, pos + 1);
            }
            space_end(src, comment_end(src, pos + 1), nl)
        } else {
            pos
        }
    } else {
        pos
    }
}

pub proof fn lemma_space_end(src: Seq<u8>, pos: int, nl: bool)
    requires
        0 <= pos <= src.len(),
    ensures
        pos <= space_end(src, pos, nl) <= src.len(),
    decreases src.len() - pos,
{
    if pos < src.len() {
        let c = src[pos];
        if c == 32 || c == 9 || (nl && (c == 13 || c == 10)) {
            lemma_space_end(src, pos + 1, nl);
        } else if c == 35 {
            lemma_comment_end(src, pos + 1);
            lemma_space_end(src, comment_end(src, pos + 1), nl);
        }
    }
}

/// End of the run of word bytes starting at `pos`.
pub open spec fn word_end(src: Seq<u8>, pos: int) -> int
    decreases src.len() - pos,
{
    if 0 <= pos < src.len() && is_word_byte(src[pos]) {
        word_end(src, pos + 1)
    } else {
        pos
    }
}

/// End of the run of decimal digits starting at `pos`.
pub open spec fn digit_end(src: Seq<u8>, pos: int) -> int
    decreases src.len() - pos,
{
    if 0 <= pos < src.len() && is_digit_byte(src[pos]) {
        digit_end(src, pos + 1)
    } else {
        pos
    }
}

pub proof fn lemma_word_end(src: Seq<u8>, pos: int)
    requires
        0 <= pos <= src.len(),
    ensures
        pos <= word_end(src, pos) <= src.len(),
        forall|i: int| pos <= i < word_end(src, pos) ==> is_word_byte(#[trigger] src[i]),
    decreases src.len() - pos,
{
    if pos < src.len() && is_word_byte(src[pos]) {
        lemma_word_end(src, pos + 1);
    }
}

pub proof fn lemma_digit_end(src: Seq<u8>, pos: int)
    requires
        0 <= pos <= src.len(),
    ensures
        pos <= digit_end(src, pos) <= src.len(),
        forall|i: int| pos <= i < digit_end(src, pos) ==> is_digit_byte(#[trigger] src[i]),
    decreases src.len() - pos,
{
    if pos < src.len() && is_digit_byte(src[pos]) {
        lemma_digit_end(src, pos + 1);
    }
}

/// A name `[a-zA-Z0-9_-]+` at `pos`, and the position after it.
pub open spec fn parse_name(src: Seq<u8>, pos: int) -> Result<(Seq<char>, int), ErrorView> {
    let end = word_end(src, pos);
    if end == pos {
        Err(perr(at_pos("expecting name at position "@, pos)))
    } else {
        Ok((bytes_as_chars(src.subrange(pos, end)), end))
    }
}

/// The number written by a run of decimal digits.
pub open spec fn dec_value(d: Seq<u8>) -> nat
    decreases d.len(),
{
    if d.len() == 0 {
        0
    } else {
        dec_value(d.drop_last()) * 10 + (d.last() - 48) as nat
    }
}

/// An integer `[0-9]+` at `pos` that fits in 64 bits, and the position after it.
pub open spec fn parse_int(src: Seq<u8>, pos: int) -> Result<(u64, int), ErrorView> {
    let end = digit_end(src, pos);
    let digits = src.subrange(pos, end);
    if end == pos {
        Err(perr(at_pos("expecting integer at position "@, pos)))
    } else if dec_value(digits) > u64::MAX {
        Err(perr("invalid integer: "@ + bytes_as_chars(digits)))
    } else {
        Ok((dec_value(digits) as u64, end))
    }
}

pub open spec fn hex_digit_value(c: u8) -> Option<nat> {
    if 48 <= c <= 57 {
        Some((c - 48) as nat)
    } else if 97 <= c <= 102 {
        Some((c - 97 + 10) as nat)
    } else if 65 <= c <= 70 {
        Some((c - 65 + 10) as nat)
    } else {
        None
    }
}

/// Reads at most `left` hex digits from `p`, stopping at the end, a zero byte or a
/// non-digit; gives the value read (after `acc`) and where it stopped.
pub open spec fn hex_run(src: Seq<u8>, p: int, left: nat, acc: nat) -> (nat, int)
    decreases left,
{
    if left == 0 || !(0 <= p < src.len()) || src[p] == 0 {
        (acc, p)
    } else {
        match hex_digit_value(src[p]) {
            Some(d) => hex_run(src, p + 1, (left - 1) as nat, acc * 16 + d),
            None => (acc, p),
        }
    }
}

/// Exactly `size` hex digits at `pos`.
pub open spec fn parse_hex(src: Seq<u8>, pos: int, size: nat) -> Result<(u32, int), ErrorView> {
    let (v, stop) = hex_run(src, pos, size, 0);
    if stop != pos + size {
        Err(
            perr(
                "expecting "@ + dec_chars(size) + " hex chars at position "@ + dec_chars(
                    pos as nat,
                ),
            ),
        )
    } else {
        Ok((v as u32, stop))
    }
}

pub proof fn lemma_hex_run(src: Seq<u8>, p: int, left: nat, acc: nat)
    requires
        0 <= p,
    ensures
        p <= hex_run(src, p, left, acc).1 <= p + left,
        hex_run(src, p, left, acc).1 == p + left ==> hex_run(src, p, left, acc).1 <= src.len()
            || left == 0,
        hex_run(src, p, left, acc).0 < (acc + 1) * vstd::arithmetic::power::pow(16, left),
    decreases left,
{
    vstd::arithmetic::power::lemma_pow_positive(16, left);
    if left == 0 || !(0 <= p < src.len()) || src[p] == 0 {
        assert((acc + 1) * vstd::arithmetic::power::pow(16, left) >= acc + 1) by (nonlinear_arith)
            requires
                vstd::arithmetic::power::pow(16, left) >= 1,
        ;
    } else {
        match hex_digit_value(src[p]) {
            Some(d) => {
                lemma_hex_run(src, p + 1, (left - 1) as nat, acc * 16 + d);
                vstd::arithmetic::power::lemma_pow_positive(16, (left - 1) as nat);
                let q = vstd::arithmetic::power::pow(16, (left - 1) as nat);
                assert(vstd::arithmetic::power::pow(16, left) == 16 * q) by {
                    vstd::arithmetic::power::lemma_pow1(16);
                    vstd::arithmetic::power::lemma_pow_adds(16, 1, (left - 1) as nat);
                }
                assert((acc * 16 + d + 1) * q <= (acc + 1) * (16 * q)) by (nonlinear_arith)
                    requires
                        d < 16,
                        q >= 1,
                ;
            },
            None => {
                assert((acc + 1) * vstd::arithmetic::power::pow(16, left) >= acc + 1)
                    by (nonlinear_arith)
                    requires
                        vstd::arithmetic::power::pow(16, left) >= 1,
                ;
            },
        }
    }
}

/// Number of bytes of the UTF-8 sequence that starts with `first`.
pub open spec fn utf8_len(first: u8) -> int {
    if first < 0x80 {
        1
    } else if first < 0xE0 {
        2
    } else if first < 0xF0 {
        3
    } else {
        4
    }
}

/// The payload bits of the leading byte.
pub open spec fn utf8_lead_bits(first: u8) -> nat {
    if first < 0x80 {
        (first % 128) as nat
    } else if first < 0xE0 {
        (first % 32) as nat
    } else if first < 0xF0 {
        (first % 16) as nat
    } else {
        (first % 8) as nat
    }
}

/// Folds continuation bytes `src[from..to]` into `acc`, six bits each.
pub open spec fn utf8_cont(src: Seq<u8>, from: int, to: int, acc: nat) -> nat
    decreases to - from,
{
    if from < to {
        utf8_cont(src, from + 1, to, acc * 64 + (src[from] % 64) as nat)
    } else {
        acc
    }
}

/// One code point decoded leniently from UTF-8 at `pos` (continuation bytes are
/// not checked), and the position after it.
pub open spec fn decode_utf8_at(src: Seq<u8>, pos: int) -> Result<(u32, int), ErrorView> {
    if !(0 <= pos < src.len()) {
        Err(perr("unexpected end of input"@))
    } else {
        let n = utf8_len(src[pos]);
        if pos + n > src.len() {
            Err(perr("truncated UTF-8 sequence"@))
        } else {
            Ok((utf8_cont(src, pos + 1, pos + n, utf8_lead_bits(src[pos])) as u32, pos + n))
        }
    }
}

/// One character of a literal or character class at `pos`, with escapes.
pub open spec fn parse_char(src: Seq<u8>, pos: int) -> Result<(u32, int), ErrorView> {
    if !(0 <= pos < src.len()) {
        Err(perr("unexpected end of input"@))
    } else if src[pos] == 92 {
        if pos + 1 >= src.len() {
            Err(perr("unexpected end of input after backslash"@))
        } else {
            let e = src[pos + 1];
            if e == 120 {
                parse_hex(src, pos + 2, 2)
            } else if e == 117 {
                parse_hex(src, pos + 2, 4)
            } else if e == 85 {
                parse_hex(src, pos + 2, 8)
            } else if e == 116 {
                Ok((9, pos + 2))
            } else if e == 114 {
                Ok((13, pos + 2))
            } else if e == 110 {
                Ok((10, pos + 2))
            } else if e == 92 || e == 34 || e == 91 || e == 93 {
                Ok((e as u32, pos + 2))
            } else {
                Err(
                    perr(
                        "unknown escape '\\"@ + seq![e as char] + at_pos(
                            "' at position "@,
                            pos,
                        ),
                    ),
                )
            }
        }
    } else {
        decode_utf8_at(src, pos)
    }
}

pub proof fn lemma_parse_char(src: Seq<u8>, pos: int)
    requires
        0 <= pos,
    ensures
        parse_char(src, pos) matches Ok((_, np)) ==> pos < np <= src.len(),
{
    if 0 <= pos < src.len() && src[pos] == 92 && pos + 1 < src.len() {
        lemma_hex_run(src, pos + 2, 2, 0);
        lemma_hex_run(src, pos + 2, 4, 0);
        lemma_hex_run(src, pos + 2, 8, 0);
    }
}


pub proof fn lemma_parse_int(src: Seq<u8>, pos: int)
    requires
        0 <= pos <= src.len(),
    ensures
        parse_int(src, pos) matches Ok((_, np)) ==> pos < np <= src.len(),
{
    lemma_digit_end(src, pos);
}

pub proof fn lemma_parse_name(src: Seq<u8>, pos: int)
    requires
        0 <= pos <= src.len(),
    ensures
        parse_name(src, pos) matches Ok((_, np)) ==> pos < np <= src.len(),
{
    lemma_word_end(src, pos);
}

// ── Symbols and rules ───────────────────────────────────────────────

pub open spec fn el(etype: ElementType, value: u32) -> Element {
    Element { etype, value }
}

/// The id of `name`, adding it with the next free id when it is new.
pub open spec fn get_symbol_id(st: ParseState, name: Seq<char>) -> (ParseState, u32) {
    match lookup(st.syms, name) {
        Some(id) => (st, id),
        None => {
            let id = st.syms.len() as u32;
            (ParseState { syms: insert(st.syms, name, id), rules: st.rules }, id)
        },
    }
}

/// The name `base_N` of a helper rule with id `N`.
pub open spec fn gen_name(base: Seq<char>, id: u32) -> Seq<char> {
    base + seq!['_'] + dec_chars(id as nat)
}

/// A fresh helper symbol named after `base`, taking the next free id.
pub open spec fn generate_symbol_id(st: ParseState, base: Seq<char>) -> (ParseState, u32) {
    let id = st.syms.len() as u32;
    (ParseState { syms: insert(st.syms, gen_name(base, id), id), rules: st.rules }, id)
}

/// Stores `rule` as rule `id`, growing the rule list with empty rules as needed.
pub open spec fn add_rule(st: ParseState, id: u32, rule: Seq<Element>) -> ParseState {
    let grown = if st.rules.len() <= id {
        st.rules + Seq::new((id + 1 - st.rules.len()) as nat, |i: int| Seq::<Element>::empty())
    } else {
        st.rules
    };
    ParseState { syms: st.syms, rules: grown.update(id as int, rule) }
}

// ── Terminals ───────────────────────────────────────────────────────

/// The characters of a string literal from `p` up to its closing quote.
pub open spec fn lit_loop(src: Seq<u8>, p: int, rule: Seq<Element>) -> Result<
    (int, Seq<Element>),
    ErrorView,
>
    decreases src.len() - p,
{
    if 0 <= p < src.len() && src[p] != 34 {
        match parse_char(src, p) {
            Ok((cp, np)) => {
                proof {
                    lemma_parse_char(src, p);
                }
                lit_loop(src, np, rule.push(el(ElementType::Char, cp)))
            },
            Err(e) => Err(e),
        }
    } else {
        Ok((p, rule))
    }
}

/// The items of a character class from `p` up to its closing bracket; the first
/// item gets `start_type`, later ones `CharAlt`, and `a-b` adds a range bound.
pub open spec fn class_loop(
    src: Seq<u8>,
    p: int,
    rule: Seq<Element>,
    start: int,
    start_type: ElementType,
) -> Result<(int, Seq<Element>), ErrorView>
    decreases src.len() - p,
{
    if 0 <= p < src.len() && src[p] != 93 {
        match parse_char(src, p) {
            Ok((cp, np)) => {
                proof {
                    lemma_parse_char(src, p);
                }
                let et = if rule.len() > start {
                    ElementType::CharAlt
                } else {
                    start_type
                };
                let r1 = rule.push(el(et, cp));
                if np < src.len() && src[np] == 45 && np + 1 < src.len() && src[np + 1] != 93 {
                    match parse_char(src, np + 1) {
                        Ok((ecp, np2)) => {
                            proof {
                                lemma_parse_char(src, np + 1);
                            }
                            class_loop(
                                src,
                                np2,
                                r1.push(el(ElementType::CharRngUpper, ecp)),
                                start,
                                start_type,
                            )
                        },
                        Err(e) => Err(e),
                    }
                } else {
                    class_loop(src, np, r1, start, start_type)
                }
            },
            Err(e) => Err(e),
        }
    } else {
        Ok((p, rule))
    }
}

pub proof fn lemma_lit_loop(src: Seq<u8>, p: int, rule: Seq<Element>)
    requires
        0 <= p <= src.len(),
    ensures
        lit_loop(src, p, rule) matches Ok((q, rr)) ==> p <= q <= src.len() && rule.len() <= rr.len(),
    decreases src.len() - p,
{
    if 0 <= p < src.len() && src[p] != 34 {
        lemma_parse_char(src, p);
        if let Ok((cp, np)) = parse_char(src, p) {
            lemma_lit_loop(src, np, rule.push(el(ElementType::Char, cp)));
        }
    }
}

pub proof fn lemma_class_loop(
    src: Seq<u8>,
    p: int,
    rule: Seq<Element>,
    start: int,
    start_type: ElementType,
)
    requires
        0 <= p <= src.len(),
    ensures
        class_loop(src, p, rule, start, start_type) matches Ok((q, rr)) ==> p <= q <= src.len()
            && rule.len() <= rr.len(),
    decreases src.len() - p,
{
    if 0 <= p < src.len() && src[p] != 93 {
        lemma_parse_char(src, p);
        if let Ok((cp, np)) = parse_char(src, p) {
            let et = if rule.len() > start {
                ElementType::CharAlt
            } else {
                start_type
            };
            let r1 = rule.push(el(et, cp));
            if np < src.len() && src[np] == 45 && np + 1 < src.len() && src[np + 1] != 93 {
                lemma_parse_char(src, np + 1);
                if let Ok((ecp, np2)) = parse_char(src, np + 1) {
                    lemma_class_loop(
                        src,
                        np2,
                        r1.push(el(ElementType::CharRngUpper, ecp)),
                        start,
                        start_type,
                    );
                }
            } else {
                lemma_class_loop(src, np, r1, start, start_type);
            }
        }
    }
}

// ── Repetition ──────────────────────────────────────────────────────

/// `s` written `k` times in a row.
pub open spec fn repeat_seq(s: Seq<Element>, k: nat) -> Seq<Element>
    decreases k,
{
    if k == 0 {
        Seq::empty()
    } else {
        repeat_seq(s, (k - 1) as nat) + s
    }
}

/// The helper rules of a repetition, from the `i`-th of `n` on: each is `prev`,
/// then (but for the innermost bounded one) a reference to the previous helper,
/// or to itself when unbounded, then an empty alternative.
pub open spec fn rep_rules(
    st: ParseState,
    name: Seq<char>,
    prev: Seq<Element>,
    no_max: bool,
    i: nat,
    n: nat,
    last: u32,
) -> (ParseState, u32)
    decreases n - i,
{
    if i < n {
        let (st1, rec_id) = generate_symbol_id(st, name);
        let body = if i > 0 || no_max {
            prev.push(el(ElementType::RuleRef, if no_max { rec_id } else { last }))
        } else {
            prev
        };
        let rec = body.push(el(ElementType::Alt, 0)).push(el(ElementType::End, 0));
        rep_rules(add_rule(st1, rec_id, rec), name, prev, no_max, i + 1, n, rec_id)
    } else {
        (st, last)
    }
}

/// Rewrites the last item of `rule` (from `last_start`) as repeated between
/// `min` and `max` times; `max == u64::MAX` means unbounded.
pub open spec fn handle_repetitions(
    st: ParseState,
    name: Seq<char>,
    rule: Seq<Element>,
    last_start: int,
    min: u64,
    max: u64,
) -> Result<(ParseState, Seq<Element>), ErrorView> {
    let no_max = max == u64::MAX;
    if last_start == rule.len() {
        Err(perr("expecting preceding item for repetition operator"@))
    } else if !no_max && max < min {
        Err(perr("repetition maximum is less than minimum"@))
    } else {
        let prev = rule.subrange(last_start, rule.len() as int);
        let base = if min == 0 {
            rule.subrange(0, last_start)
        } else {
            rule + repeat_seq(prev, (min - 1) as nat)
        };
        let n: nat = if no_max {
            1
        } else {
            (max - min) as nat
        };
        let (st2, last) = rep_rules(st, name, prev, no_max, 0, n, 0);
        Ok(
            (
                st2,
                if n > 0 {
                    base.push(el(ElementType::RuleRef, last))
                } else {
                    base
                },
            ),
        )
    }
}

/// The bounds of a `{n}`, `{n,}` or `{n,m}` whose body starts at `p` (after the
/// brace and blanks), and the position after it and the blanks that follow.
pub open spec fn brace_bounds(src: Seq<u8>, p: int, nl: bool) -> Result<(u64, u64, int), ErrorView> {
    if !(0 <= p < src.len()) || !is_digit_byte(src[p]) {
        Err(perr(at_pos("expecting integer at position "@, p)))
    } else {
        match parse_int(src, p) {
            Err(e) => Err(e),
            Ok((min, np)) => {
                let p2 = space_end(src, np, nl);
                if p2 < src.len() && src[p2] == 125 {
                    Ok((min, min, space_end(src, p2 + 1, nl)))
                } else if p2 < src.len() && src[p2] == 44 {
                    let p3 = space_end(src, p2 + 1, nl);
                    let r: Result<(u64, int), ErrorView> = if p3 < src.len() && is_digit_byte(
                        src[p3],
                    ) {
                        match parse_int(src, p3) {
                            Err(e) => Err(e),
                            Ok((v, np2)) => Ok((v, space_end(src, np2, nl))),
                        }
                    } else {
                        Ok((u64::MAX, p3))
                    };
                    match r {
                        Err(e) => Err(e),
                        Ok((max, p4)) => if p4 >= src.len() || src[p4] != 125 {
                            Err(perr(at_pos("expecting '}' at position "@, p4)))
                        } else {
                            Ok((min, max, space_end(src, p4 + 1, nl)))
                        },
                    }
                } else {
                    Err(perr(at_pos("expecting ',' or '}' at position "@, p2)))
                }
            },
        }
    }
}

pub proof fn lemma_brace_bounds(src: Seq<u8>, p: int, nl: bool)
    requires
        0 <= p <= src.len(),
    ensures
        brace_bounds(src, p, nl) matches Ok((_, _, q)) ==> p < q <= src.len(),
{
    if 0 <= p < src.len() && is_digit_byte(src[p]) {
        lemma_parse_int(src, p);
        if let Ok((min, np)) = parse_int(src, p) {
            lemma_space_end(src, np, nl);
            let p2 = space_end(src, np, nl);
            if p2 < src.len() && src[p2] == 125 {
                lemma_space_end(src, p2 + 1, nl);
            } else if p2 < src.len() && src[p2] == 44 {
                lemma_space_end(src, p2 + 1, nl);
                let p3 = space_end(src, p2 + 1, nl);
                if p3 < src.len() && is_digit_byte(src[p3]) {
                    lemma_parse_int(src, p3);
                    if let Ok((v, np2)) = parse_int(src, p3) {
                        lemma_space_end(src, np2, nl);
                        let p4 = space_end(src, np2, nl);
                        if p4 < src.len() {
                            lemma_space_end(src, p4 + 1, nl);
                        }
                    }
                } else if p3 < src.len() {
                    lemma_space_end(src, p3 + 1, nl);
                }
            }
        }
    }
}

/// Checks the bounds of a `{..}` against the threshold, then rewrites the rule.
pub open spec fn braced_repetition(
    st: ParseState,
    name: Seq<char>,
    rule: Seq<Element>,
    last_start: int,
    min: u64,
    max: u64,
) -> Result<(ParseState, Seq<Element>), ErrorView> {
    let has_max = max != u64::MAX;
    if min > MAX_REPETITION_THRESHOLD || (has_max && max > MAX_REPETITION_THRESHOLD) {
        Err(perr("repetition count exceeds maximum threshold"@))
    } else {
        handle_repetitions(st, name, rule, last_start, min, max)
    }
}


// ── Sequences, alternatives, rules ──────────────────────────────────

/// What one item of a sequence does: nothing starts there (`Stop`), or the item
/// ends before position `.0`, leaving the state `.1`, the rule `.2` and the start
/// `.3` of the last item.
pub enum Step {
    Stop,
    Next(int, ParseState, Seq<Element>, int),
}

/// A string literal whose opening quote is at `p`.
#[verifier::opaque]
pub open spec fn literal_item(src: Seq<u8>, p: int, st: ParseState, rule: Seq<Element>, nested: bool) -> Result<Step, ErrorView> {
    match lit_loop(src, p + 1, rule) {
        Err(e) => Err(e),
        Ok((q, r2)) => if q >= src.len() {
            Err(perr("unexpected end of input in string literal"@))
        } else {
            Ok(Step::Next(space_end(src, q + 1, nested), st, r2, rule.len() as int))
        },
    }
}

/// A character class whose opening bracket is at `p`.
#[verifier::opaque]
pub open spec fn class_item(src: Seq<u8>, p: int, st: ParseState, rule: Seq<Element>, nested: bool) -> Result<Step, ErrorView> {
    let negated = p + 1 < src.len() && src[p + 1] == 94;
    let p1 = if negated { p + 2 } else { p + 1 };
    let start_type = if negated { ElementType::CharNot } else { ElementType::Char };
    match class_loop(src, p1, rule, rule.len() as int, start_type) {
        Err(e) => Err(e),
        Ok((q, r2)) => if q >= src.len() {
            Err(perr("unexpected end of input in character range"@))
        } else {
            Ok(Step::Next(space_end(src, q + 1, nested), st, r2, rule.len() as int))
        },
    }
}

/// A reference to the rule named at `p`.
#[verifier::opaque]
pub open spec fn ref_item(src: Seq<u8>, p: int, st: ParseState, rule: Seq<Element>, nested: bool) -> Result<Step, ErrorView> {
    match parse_name(src, p) {
        Err(e) => Err(e),
        Ok((nm, ne)) => {
            let (st1, id) = get_symbol_id(st, nm);
            Ok(Step::Next(space_end(src, ne, nested), st1, rule.push(el(ElementType::RuleRef, id)), rule.len() as int))
        },
    }
}

/// `.` at `p`.
#[verifier::opaque]
pub open spec fn any_item(src: Seq<u8>, p: int, st: ParseState, rule: Seq<Element>, nested: bool) -> Result<Step, ErrorView> {
    Ok(Step::Next(space_end(src, p + 1, nested), st, rule.push(el(ElementType::CharAny, 0)), rule.len() as int))
}

/// `*`, `+` or `?` at `p`, applied to the last item.
#[verifier::opaque]
pub open spec fn rep_item(src: Seq<u8>, p: int, st: ParseState, rule: Seq<Element>, last_start: int, name: Seq<char>, nested: bool) -> Result<Step, ErrorView> {
    let c = src[p];
    let (min, max): (u64, u64) = if c == 42 {
        (0, u64::MAX)
    } else if c == 43 {
        (1, u64::MAX)
    } else {
        (0, 1)
    };
    match handle_repetitions(st, name, rule, last_start, min, max) {
        Err(e) => Err(e),
        Ok((st2, r2)) => Ok(Step::Next(space_end(src, p + 1, nested), st2, r2, last_start)),
    }
}

/// `{..}` at `p`, applied to the last item.
#[verifier::opaque]
pub open spec fn brace_item(src: Seq<u8>, p: int, st: ParseState, rule: Seq<Element>, last_start: int, name: Seq<char>, nested: bool) -> Result<Step, ErrorView> {
    match brace_bounds(src, space_end(src, p + 1, nested), nested) {
        Err(e) => Err(e),
        Ok((min, max, q)) => match braced_repetition(st, name, rule, last_start, min, max) {
            Err(e) => Err(e),
            Ok((st2, r2)) => Ok(Step::Next(q, st2, r2, last_start)),
        },
    }
}

/// A parenthesized group at `p`: its alternatives become a helper rule named
/// after `name`, and the sequence gets a reference to it.
pub open spec fn group_item(src: Seq<u8>, p: int, st: ParseState, rule: Seq<Element>, name: Seq<char>, nested: bool) -> Result<Step, ErrorView>
    decreases src.len() - p, 0int,
{
    if 0 <= p < src.len() {
        proof {
            lemma_space_end(src, p + 1, true);
        }
        let p1 = space_end(src, p + 1, true);
        let (st1, sub_id) = generate_symbol_id(st, name);
        match alternates(src, p1, st1, name, sub_id, true) {
            Err(e) => Err(e),
            Ok((q, st2)) => if q >= src.len() || src[q] != 41 {
                Err(perr(at_pos("expecting ')' at position "@, q)))
            } else {
                Ok(Step::Next(space_end(src, q + 1, nested), st2, rule.push(el(ElementType::RuleRef, sub_id)), rule.len() as int))
            },
        }
    } else {
        arbitrary()
    }
}

/// The item at `p`, chosen by its first byte.
pub open spec fn item_step(src: Seq<u8>, p: int, st: ParseState, rule: Seq<Element>, last_start: int, name: Seq<char>, nested: bool) -> Result<Step, ErrorView>
    decreases src.len() - p, 1int,
{
    if !(0 <= p < src.len()) {
        Ok(Step::Stop)
    } else {
        let c = src[p];
        if c == 34 {
            literal_item(src, p, st, rule, nested)
        } else if c == 91 {
            class_item(src, p, st, rule, nested)
        } else if is_word_byte(c) {
            ref_item(src, p, st, rule, nested)
        } else if c == 40 {
            group_item(src, p, st, rule, name, nested)
        } else if c == 46 {
            any_item(src, p, st, rule, nested)
        } else if c == 42 || c == 43 || c == 63 {
            rep_item(src, p, st, rule, last_start, name, nested)
        } else if c == 123 {
            brace_item(src, p, st, rule, last_start, name, nested)
        } else {
            Ok(Step::Stop)
        }
    }
}

/// Parses items of one alternative from `p` onwards, appending them to `rule`;
/// `last_start` is where the last item began (the target of a repetition).
/// Stops before the first byte that cannot start an item.
pub open spec fn seq_loop(
    src: Seq<u8>,
    p: int,
    st: ParseState,
    rule: Seq<Element>,
    last_start: int,
    name: Seq<char>,
    nested: bool,
) -> Result<(int, ParseState, Seq<Element>), ErrorView>
    decreases src.len() - p, 2int,
{
    if !(0 <= p <= src.len()) {
        arbitrary()
    } else {
        match item_step(src, p, st, rule, last_start, name, nested) {
            Err(e) => Err(e),
            Ok(Step::Stop) => Ok((p, st, rule)),
            Ok(Step::Next(q, st2, r2, ls2)) => if p < q <= src.len() {
                seq_loop(src, q, st2, r2, ls2, name, nested)
            } else {
                arbitrary()
            },
        }
    }
}

/// Parses `seq ('|' seq)*` at `pos` and stores the result as rule `id`.
pub open spec fn alternates(
    src: Seq<u8>,
    pos: int,
    st: ParseState,
    name: Seq<char>,
    id: u32,
    nested: bool,
) -> Result<(int, ParseState), ErrorView>
    decreases src.len() - pos, 4int,
{
    match seq_loop(src, pos, st, Seq::empty(), 0, name, nested) {
        Err(e) => Err(e),
        Ok((p, st1, rule)) => if pos <= p <= src.len() {
            alt_loop(src, p, st1, rule, name, id, nested)
        } else {
            arbitrary()
        },
    }
}

/// The `('|' seq)*` part of `alternates`, then storing the rule.
pub open spec fn alt_loop(
    src: Seq<u8>,
    p: int,
    st: ParseState,
    rule: Seq<Element>,
    name: Seq<char>,
    id: u32,
    nested: bool,
) -> Result<(int, ParseState), ErrorView>
    decreases src.len() - p, 3int,
{
    if 0 <= p < src.len() && src[p] == 124 {
        proof {
            lemma_space_end(src, p + 1, true);
        }
        let p1 = space_end(src, p + 1, true);
        let r1 = rule.push(el(ElementType::Alt, 0));
        match seq_loop(src, p1, st, r1, r1.len() as int, name, nested) {
            Err(e) => Err(e),
            Ok((q, st1, r2)) => if p1 <= q <= src.len() {
                alt_loop(src, q, st1, r2, name, id, nested)
            } else {
                arbitrary()
            },
        }
    } else {
        Ok((p, add_rule(st, id, rule.push(el(ElementType::End, 0)))))
    }
}

/// One rule `name ::= alternatives` at `pos`, through its line break and the
/// blank lines after it.
pub open spec fn parse_rule(src: Seq<u8>, pos: int, st: ParseState) -> Result<
    (int, ParseState),
    ErrorView,
> {
    match parse_name(src, pos) {
        Err(e) => Err(e),
        Ok((nm, ne)) => {
            let p = space_end(src, ne, false);
            let (st1, id) = get_symbol_id(st, nm);
            if p + 2 >= src.len() || src[p] != 58 || src[p + 1] != 58 || src[p + 2] != 61 {
                Err(perr(at_pos("expecting '::=' at position "@, p)))
            } else {
                match alternates(src, space_end(src, p + 3, true), st1, nm, id, false) {
                    Err(e) => Err(e),
                    Ok((q, st2)) => {
                        if q < src.len() && src[q] == 13 {
                            let q2 = if q + 1 < src.len() && src[q + 1] == 10 {
                                q + 2
                            } else {
                                q + 1
                            };
                            Ok((space_end(src, q2, true), st2))
                        } else if q < src.len() && src[q] == 10 {
                            Ok((space_end(src, q + 1, true), st2))
                        } else if q < src.len() {
                            Err(perr(at_pos("expecting newline or end at position "@, q)))
                        } else {
                            Ok((space_end(src, q, true), st2))
                        }
                    },
                }
            }
        },
    }
}

/// Rules one after another from `p` to the end of the text.
pub open spec fn rules_loop(src: Seq<u8>, p: int, st: ParseState) -> Result<ParseState, ErrorView>
    decreases src.len() - p,
{
    if 0 <= p < src.len() {
        match parse_rule(src, p, st) {
            Err(e) => Err(e),
            Ok((q, st1)) => if p < q <= src.len() {
                rules_loop(src, q, st1)
            } else {
                arbitrary()
            },
        }
    } else {
        Ok(st)
    }
}

/// The name reported for an undefined rule id.
pub open spec fn undefined_name(syms: Seq<(Seq<char>, u32)>, id: u32) -> Seq<char> {
    match crate::symbols::first_name_with(syms, id) {
        Some(n) => n,
        None => "unknown"@,
    }
}

/// Checks the references of rule `idx` from element `j` on.
pub open spec fn validate_refs(st: ParseState, idx: int, j: int) -> Result<(), ErrorView>
    decreases st.rules[idx].len() - j,
{
    if 0 <= j < st.rules[idx].len() {
        let e = st.rules[idx][j];
        if e.etype == ElementType::RuleRef && (e.value >= st.rules.len()
            || st.rules[e.value as int].len() == 0) {
            Err(ErrorView::UndefinedRule(undefined_name(st.syms, e.value)))
        } else {
            validate_refs(st, idx, j + 1)
        }
    } else {
        Ok(())
    }
}

/// Checks rules from `idx` on: each is defined and refers only to defined rules.
pub open spec fn validate_from(st: ParseState, idx: int) -> Result<(), ErrorView>
    decreases st.rules.len() - idx,
{
    if 0 <= idx < st.rules.len() {
        if st.rules[idx].len() == 0 {
            Err(ErrorView::UndefinedRule(undefined_name(st.syms, idx as u32)))
        } else {
            match validate_refs(st, idx, 0) {
                Err(e) => Err(e),
                Ok(()) => validate_from(st, idx + 1),
            }
        }
    } else {
        Ok(())
    }
}

pub open spec fn validate(st: ParseState) -> Result<(), ErrorView> {
    if st.rules.len() == 0 {
        Err(ErrorView::EmptyGrammar)
    } else {
        validate_from(st, 0)
    }
}

pub open spec fn empty_state() -> ParseState {
    ParseState { syms: Seq::empty(), rules: Seq::empty() }
}

/// The result of parsing the GBNF text whose UTF-8 bytes are `src`.
pub open spec fn spec_parse(src: Seq<u8>) -> Result<ParseState, ErrorView> {
    match rules_loop(src, space_end(src, 0, true), empty_state()) {
        Err(e) => Err(e),
        Ok(st) => match validate(st) {
            Err(e) => Err(e),
            Ok(()) => Ok(st),
        },
    }
}


pub proof fn lemma_handle_repetitions_len(
    st: ParseState,
    name: Seq<char>,
    rule: Seq<Element>,
    last_start: int,
    min: u64,
    max: u64,
)
    requires
        0 <= last_start <= rule.len(),
    ensures
        handle_repetitions(st, name, rule, last_start, min, max) matches Ok((_, r2)) ==> last_start
            <= r2.len(),
{
}



/// One unfolding of `seq_loop`.
pub proof fn lemma_seq_loop_unfold(
    src: Seq<u8>,
    p: int,
    st: ParseState,
    rule: Seq<Element>,
    last_start: int,
    name: Seq<char>,
    nested: bool,
)
    requires
        0 <= p <= src.len(),
    ensures
        seq_loop(src, p, st, rule, last_start, name, nested) == match item_step(
            src,
            p,
            st,
            rule,
            last_start,
            name,
            nested,
        ) {
            Err(e) => Err(e),
            Ok(Step::Stop) => Ok((p, st, rule)),
            Ok(Step::Next(q, st2, r2, ls2)) => if p < q <= src.len() {
                seq_loop(src, q, st2, r2, ls2, name, nested)
            } else {
                arbitrary()
            },
        },
        p == src.len() ==> item_step(src, p, st, rule, last_start, name, nested) == Ok::<
            Step,
            ErrorView,
        >(Step::Stop),
{
}

/// One unfolding of `alternates`.
pub proof fn lemma_alternates_unfold(
    src: Seq<u8>,
    pos: int,
    st: ParseState,
    name: Seq<char>,
    id: u32,
    nested: bool,
)
    ensures
        alternates(src, pos, st, name, id, nested) == match seq_loop(
            src,
            pos,
            st,
            Seq::empty(),
            0,
            name,
            nested,
        ) {
            Err(e) => Err(e),
            Ok((p, st1, rule)) => if pos <= p <= src.len() {
                alt_loop(src, p, st1, rule, name, id, nested)
            } else {
                arbitrary()
            },
        },
{
}

/// One unfolding of `alt_loop`.
pub proof fn lemma_alt_loop_unfold(
    src: Seq<u8>,
    p: int,
    st: ParseState,
    rule: Seq<Element>,
    name: Seq<char>,
    id: u32,
    nested: bool,
)
    ensures
        alt_loop(src, p, st, rule, name, id, nested) == if 0 <= p < src.len() && src[p] == 124 {
            let p1 = space_end(src, p + 1, true);
            let r1 = rule.push(el(ElementType::Alt, 0));
            match seq_loop(src, p1, st, r1, r1.len() as int, name, nested) {
                Err(e) => Err(e),
                Ok((q, st1, r2)) => if p1 <= q <= src.len() {
                    alt_loop(src, q, st1, r2, name, id, nested)
                } else {
                    arbitrary()
                },
            }
        } else {
            Ok((p, add_rule(st, id, rule.push(el(ElementType::End, 0)))))
        },
{
}


proof fn lemma_validate_refs_ok(st: ParseState, idx: int, j: int)
    requires
        0 <= idx < st.rules.len(),
        0 <= j,
        validate_refs(st, idx, j) is Ok,
    ensures
        forall|k: int|
            j <= k < st.rules[idx].len() && (#[trigger] st.rules[idx][k]).etype
                == ElementType::RuleRef ==> st.rules[idx][k].value < st.rules.len(),
    decreases st.rules[idx].len() - j,
{
    if j < st.rules[idx].len() {
        lemma_validate_refs_ok(st, idx, j + 1);
    }
}

proof fn lemma_validate_from_ok(st: ParseState, idx: int)
    requires
        0 <= idx,
        validate_from(st, idx) is Ok,
    ensures
        forall|i: int| idx <= i < st.rules.len() ==> #[trigger] st.rules[i].len() > 0,
        forall|i: int, k: int|
            idx <= i < st.rules.len() && 0 <= k < st.rules[i].len() && (#[trigger] st.rules[i][k]).etype
                == ElementType::RuleRef ==> st.rules[i][k].value < st.rules.len(),
    decreases st.rules.len() - idx,
{
    if idx < st.rules.len() {
        lemma_validate_refs_ok(st, idx, 0);
        lemma_validate_from_ok(st, idx + 1);
    }
}

/// A state that passes validation has non-empty rules whose references are in range.
pub proof fn lemma_validate_ok(st: ParseState)
    requires
        validate(st) is Ok,
    ensures
        st.rules.len() > 0,
        forall|i: int| 0 <= i < st.rules.len() ==> #[trigger] st.rules[i].len() > 0,
        forall|i: int, k: int|
            0 <= i < st.rules.len() && 0 <= k < st.rules[i].len() && (#[trigger] st.rules[i][k]).etype
                == ElementType::RuleRef ==> st.rules[i][k].value < st.rules.len(),
{
    lemma_validate_from_ok(st, 0);
}

// ── Laws of the lexical layer ──────────────────────────────────────

/// A byte skipped as blank: space, tab, and line breaks where they may be skipped.
pub open spec fn blank_byte(c: u8, nl: bool) -> bool {
    c == 32 || c == 9 || (nl && (c == 13 || c == 10))
}

/// Position `i` lies in a `#` comment opened at or after `from`: a `#` at some
/// `j` in `from..=i` with no line break in `src[j..=i]`.
pub open spec fn in_comment(src: Seq<u8>, from: int, i: int) -> bool {
    exists|j: int|
        from <= j <= i && src[j] == 35 && forall|k: int| j <= k <= i ==> #[trigger] src[k] != 13 && src[k] != 10
}

proof fn lemma_comment_end_facts(src: Seq<u8>, pos: int)
    requires
        0 <= pos <= src.len(),
    ensures
        forall|k: int| pos <= k < comment_end(src, pos) ==> #[trigger] src[k] != 13 && src[k] != 10,
        comment_end(src, pos) < src.len() ==> (src[comment_end(src, pos)] == 13 || src[comment_end(src, pos)] == 10),
    decreases src.len() - pos,
{
    if pos < src.len() && src[pos] != 13 && src[pos] != 10 {
        lemma_comment_end_facts(src, pos + 1);
    }
}

/// Blanks and comments are skipped wherever blanks are: from `pos`, the
/// position reached covers only blank bytes and `#` comments (each up to its
/// line break), whatever `nl` is, and stops at the first byte that is neither
/// blank, nor `#`, nor inside such a comment.
#[verifier::spinoff_prover]
#[verifier::rlimit(50)]
pub proof fn law_space_end(src: Seq<u8>, pos: int, nl: bool)
    requires
        0 <= pos <= src.len(),
    ensures
        pos <= space_end(src, pos, nl) <= src.len(),
        forall|i: int|
            pos <= i < space_end(src, pos, nl) ==> blank_byte(#[trigger] src[i], nl) || in_comment(src, pos, i),
        space_end(src, pos, nl) < src.len() ==> !blank_byte(src[space_end(src, pos, nl)], nl)
            && src[space_end(src, pos, nl)] != 35 && !in_comment(src, pos, space_end(src, pos, nl)),
    decreases src.len() - pos,
{
    let q = space_end(src, pos, nl);
    if pos < src.len() {
        let c = src[pos];
        if blank_byte(c, nl) {
            law_space_end(src, pos + 1, nl);
            assert forall|i: int| pos <= i < q implies blank_byte(#[trigger] src[i], nl) || in_comment(src, pos, i) by {
                if i > pos && !blank_byte(src[i], nl) {
                    assert(in_comment(src, pos + 1, i));
                    let j = choose|j: int| pos + 1 <= j <= i && src[j] == 35 && forall|k: int| j <= k <= i ==> #[trigger] src[k] != 13 && src[k] != 10;
                    assert(pos <= j <= i);
                }
            }
            if q < src.len() {
                if in_comment(src, pos, q) {
                    let j = choose|j: int| pos <= j <= q && src[j] == 35 && forall|k: int| j <= k <= q ==> #[trigger] src[k] != 13 && src[k] != 10;
                    assert(j != pos);
                    assert(in_comment(src, pos + 1, q));
                }
            }
        } else if c == 35 {
            let ce = comment_end(src, pos + 1);
            lemma_comment_end(src, pos + 1);
            lemma_comment_end_facts(src, pos + 1);
            law_space_end(src, ce, nl);
            assert forall|i: int| pos <= i < q implies blank_byte(#[trigger] src[i], nl) || in_comment(src, pos, i) by {
                if i < ce {
                    assert forall|k: int| pos <= k <= i implies #[trigger] src[k] != 13 && src[k] != 10 by {
                        if k > pos {
                            assert(pos + 1 <= k < ce);
                        }
                    }
                } else if !blank_byte(src[i], nl) {
                    assert(in_comment(src, ce, i));
                    let j = choose|j: int| ce <= j <= i && src[j] == 35 && forall|k: int| j <= k <= i ==> #[trigger] src[k] != 13 && src[k] != 10;
                    assert(pos <= j <= i);
                }
            }
            if q < src.len() {
                assert(ce < src.len());
                if in_comment(src, pos, q) {
                    let j = choose|j: int| pos <= j <= q && src[j] == 35 && forall|k: int| j <= k <= q ==> #[trigger] src[k] != 13 && src[k] != 10;
                    if j < ce {
                        assert(src[ce] != 13 && src[ce] != 10);
                    } else {
                        assert(in_comment(src, ce, q));
                    }
                }
            }
        } else {
            if in_comment(src, pos, q) {
                let j = choose|j: int| pos <= j <= q && src[j] == 35 && forall|k: int| j <= k <= q ==> #[trigger] src[k] != 13 && src[k] != 10;
            }
        }
    }
}

/// Escapes in literals and classes: `\n`, `\r`, `\t` stand for line feed,
/// carriage return and tab; `\\`, `\"`, `\[` and `\]` for the escaped byte;
/// `\x` followed by two hex digits for their value; each escape takes two
/// bytes (four for `\x`).
pub proof fn law_parse_char_escapes(src: Seq<u8>, pos: int)
    requires
        0 <= pos,
        pos + 1 < src.len(),
        src[pos] == 92,
    ensures
        src[pos + 1] == 110 ==> parse_char(src, pos) == Ok::<(u32, int), ErrorView>((10, pos + 2)),
        src[pos + 1] == 114 ==> parse_char(src, pos) == Ok::<(u32, int), ErrorView>((13, pos + 2)),
        src[pos + 1] == 116 ==> parse_char(src, pos) == Ok::<(u32, int), ErrorView>((9, pos + 2)),
        (src[pos + 1] == 92 || src[pos + 1] == 34 || src[pos + 1] == 91 || src[pos + 1] == 93)
            ==> parse_char(src, pos) == Ok::<(u32, int), ErrorView>((src[pos + 1] as u32, pos + 2)),
        src[pos + 1] == 120 && pos + 3 < src.len() && hex_digit_value(src[pos + 2]) is Some
            && hex_digit_value(src[pos + 3]) is Some ==> parse_char(src, pos) == Ok::<(u32, int), ErrorView>(
            (
                (hex_digit_value(src[pos + 2])->0 * 16 + hex_digit_value(src[pos + 3])->0) as u32,
                pos + 4,
            ),
        ),
{
    if src[pos + 1] == 120 && pos + 3 < src.len() && hex_digit_value(src[pos + 2]) is Some
        && hex_digit_value(src[pos + 3]) is Some {
        let d1 = hex_digit_value(src[pos + 2])->0;
        let d2 = hex_digit_value(src[pos + 3])->0;
        assert(src[pos + 2] != 0 && src[pos + 3] != 0);
        assert(hex_run(src, pos + 4, 0, d1 * 16 + d2) == (d1 * 16 + d2, pos + 4));
        assert(hex_run(src, pos + 3, 1, d1) == (d1 * 16 + d2, pos + 4));
        assert(hex_run(src, pos + 2, 2, 0) == (0 * 16 + d1 * 16 + d2, pos + 4));
    }
}

proof fn lemma_utf8_width_2(v: u32)
    by (bit_vector)
    requires
        0x80 <= v <= 0x7FF,
    ensures
        0xC0 <= (0xC0u8 | ((v >> 6u32) & 0x1Fu32) as u8) < 0xE0,
        (((0xC0u8 | ((v >> 6u32) & 0x1Fu32) as u8) % 32) as u32) * 64 + (((0x80u8 | (v & 0x3Fu32) as u8)
            % 64) as u32) == v,
{
}

proof fn lemma_utf8_width_3(v: u32)
    by (bit_vector)
    requires
        0x800 <= v <= 0xFFFF,
    ensures
        0xE0 <= (0xE0u8 | ((v >> 12u32) & 0x0Fu32) as u8) < 0xF0,
        ((((0xE0u8 | ((v >> 12u32) & 0x0Fu32) as u8) % 16) as u32) * 64 + (((0x80u8 | ((v >> 6u32)
            & 0x3Fu32) as u8) % 64) as u32)) * 64 + (((0x80u8 | (v & 0x3Fu32) as u8) % 64) as u32) == v,
{
}

proof fn lemma_utf8_width_4(v: u32)
    by (bit_vector)
    requires
        0x10000 <= v <= 0x10FFFF,
    ensures
        0xF0 <= (0xF0u8 | ((v >> 18u32) & 0x7u32) as u8),
        (((((0xF0u8 | ((v >> 18u32) & 0x7u32) as u8) % 8) as u32) * 64 + (((0x80u8 | ((v >> 12u32)
            & 0x3Fu32) as u8) % 64) as u32)) * 64 + (((0x80u8 | ((v >> 6u32) & 0x3Fu32) as u8) % 64) as u32))
            * 64 + (((0x80u8 | (v & 0x3Fu32) as u8) % 64) as u32) == v,
{
}

/// A character written as itself (not a backslash) stands for its code point:
/// where the bytes at `pos` are the UTF-8 encoding of a scalar value `v`,
/// `parse_char` gives `v` and the position after the encoding.
pub proof fn law_parse_char_utf8(src: Seq<u8>, pos: int, v: u32)
    requires
        0 <= pos,
        vstd::utf8::is_scalar(v),
        v != 92,
        pos + vstd::utf8::encode_scalar(v).len() <= src.len(),
        src.subrange(pos, pos + vstd::utf8::encode_scalar(v).len()) == vstd::utf8::encode_scalar(v),
    ensures
        parse_char(src, pos) == Ok::<(u32, int), ErrorView>((v, pos + vstd::utf8::encode_scalar(v).len())),
{
    let enc = vstd::utf8::encode_scalar(v);
    let n = enc.len() as int;
    assert forall|i: int| 0 <= i < n implies src[pos + i] == #[trigger] enc[i] by {
        assert(src.subrange(pos, pos + n)[i] == src[pos + i]);
    }
    if vstd::utf8::has_width_1_encoding(v) {
        assert((v & 0x7F) as u8 == v) by (bit_vector)
            requires
                v <= 0x7F,
        ;
        assert(src[pos] == enc[0]);
        assert(enc[0] == (v & 0x7F) as u8);
        assert(src[pos] as int == v as int);
        assert(utf8_cont(src, pos + 1, pos + 1, utf8_lead_bits(src[pos])) == v);
    } else if vstd::utf8::has_width_2_encoding(v) {
        lemma_utf8_width_2(v);
        assert(src[pos] == enc[0] && src[pos + 1] == enc[1]);
        assert(utf8_cont(src, pos + 2, pos + 2, (utf8_lead_bits(src[pos]) * 64 + (src[pos + 1] % 64) as nat)) == v);
    } else if vstd::utf8::has_width_3_encoding(v) {
        lemma_utf8_width_3(v);
        assert(src[pos] == enc[0] && src[pos + 1] == enc[1] && src[pos + 2] == enc[2]);
        let a1 = utf8_lead_bits(src[pos]);
        let a2 = a1 * 64 + (src[pos + 1] % 64) as nat;
        let a3 = a2 * 64 + (src[pos + 2] % 64) as nat;
        assert(utf8_cont(src, pos + 3, pos + 3, a3) == a3);
        assert(utf8_cont(src, pos + 2, pos + 3, a2) == a3);
        assert(utf8_cont(src, pos + 1, pos + 3, a1) == a3);
        assert(a3 == v);
    } else {
        lemma_utf8_width_4(v);
        assert(src[pos] == enc[0] && src[pos + 1] == enc[1] && src[pos + 2] == enc[2] && src[pos + 3] == enc[3]);
        let a1 = utf8_lead_bits(src[pos]);
        let a2 = a1 * 64 + (src[pos + 1] % 64) as nat;
        let a3 = a2 * 64 + (src[pos + 2] % 64) as nat;
        let a4 = a3 * 64 + (src[pos + 3] % 64) as nat;
        assert(utf8_cont(src, pos + 4, pos + 4, a4) == a4);
        assert(utf8_cont(src, pos + 3, pos + 4, a3) == a4);
        assert(utf8_cont(src, pos + 2, pos + 4, a2) == a4);
        assert(utf8_cont(src, pos + 1, pos + 4, a1) == a4);
        assert(a4 == v);
    }
}

/// A literal's plain ASCII text (no quote, no backslash) up to its closing
/// quote becomes one `Char` element per byte, in order, and reading stops at
/// that quote.
pub proof fn law_literal_plain(src: Seq<u8>, p: int, q: int, rule: Seq<Element>)
    requires
        0 <= p <= q < src.len(),
        src[q] == 34,
        forall|i: int| p <= i < q ==> #[trigger] src[i] != 34 && src[i] != 92 && src[i] < 128,
    ensures
        lit_loop(src, p, rule) == Ok::<(int, Seq<Element>), ErrorView>(
            (q, rule + Seq::new((q - p) as nat, |i: int| Element { etype: ElementType::Char, value: src[p + i] as u32 })),
        ),
    decreases q - p,
{
    let chars = Seq::new((q - p) as nat, |i: int| Element { etype: ElementType::Char, value: src[p + i] as u32 });
    if p == q {
        assert(rule + chars =~= rule);
    } else {
        assert(src[p] != 34 && src[p] != 92 && src[p] < 128);
        assert(utf8_cont(src, p + 1, p + 1, utf8_lead_bits(src[p])) == src[p] as nat);
        assert(parse_char(src, p) == Ok::<(u32, int), ErrorView>((src[p] as u32, p + 1)));
        let r1 = rule.push(el(ElementType::Char, src[p] as u32));
        law_literal_plain(src, p + 1, q, r1);
        let rest = Seq::new((q - (p + 1)) as nat, |i: int| Element { etype: ElementType::Char, value: src[p + 1 + i] as u32 });
        assert(r1 + rest =~= rule + chars);
    }
}

proof fn lemma_repeat_seq(x: Seq<Element>, k: nat)
    ensures
        repeat_seq(x, k).len() == k * x.len(),
        forall|c: int, i: int|
            0 <= c < k && 0 <= i < x.len() ==> #[trigger] repeat_seq(x, k)[c * x.len() + i] == x[i],
    decreases k,
{
    if k == 0 {
        assert(0 * x.len() == 0);
    } else {
        lemma_repeat_seq(x, (k - 1) as nat);
        let a = repeat_seq(x, (k - 1) as nat);
        let l = x.len() as int;
        assert(k * l == (k - 1) * l + l) by (nonlinear_arith);
        assert(repeat_seq(x, k).len() == a.len() + x.len());
        assert(k * x.len() == k * l);
        assert forall|c: int, i: int| 0 <= c < k && 0 <= i < l implies #[trigger] repeat_seq(x, k)[c * l + i] == x[i] by {
            if c < k - 1 {
                assert(c * l + i < (k - 1) * l) by (nonlinear_arith)
                    requires
                        c < k - 1,
                        0 <= i < l,
                ;
                assert(0 <= c * l) by (nonlinear_arith)
                    requires
                        0 <= c,
                        0 <= l,
                ;
                assert(repeat_seq(x, k)[c * l + i] == a[c * l + i]);
            } else {
                assert(c * l == (k - 1) * l);
                assert(repeat_seq(x, k)[c * l + i] == x[i]);
            }
        }
    }
}

/// A repetition succeeds exactly when an item precedes it and the maximum (if
/// any) is not below the minimum. The rewritten rule keeps everything before the
/// item, then holds exactly `min` copies of the item one after another, then,
/// when optional copies remain (`max > min`, or no maximum), one reference to a
/// helper rule.
pub proof fn law_repetition_rewrites_rule(
    st: ParseState,
    name: Seq<char>,
    rule: Seq<Element>,
    ls: int,
    min: u64,
    max: u64,
)
    requires
        0 <= ls <= rule.len(),
    ensures
        handle_repetitions(st, name, rule, ls, min, max) is Ok <==> (ls < rule.len() && (max == u64::MAX
            || min <= max)),
        handle_repetitions(st, name, rule, ls, min, max) matches Ok((st2, r2)) ==> {
            let x = rule.subrange(ls, rule.len() as int);
            let extra: int = if max == u64::MAX || max > min {
                1
            } else {
                0
            };
            &&& r2.len() == ls + min * x.len() + extra
            &&& forall|i: int| 0 <= i < ls ==> r2[i] == rule[i]
            &&& forall|c: int, i: int|
                0 <= c < min && 0 <= i < x.len() ==> #[trigger] r2[ls + c * x.len() + i] == x[i]
            &&& extra == 1 ==> r2.last().etype == ElementType::RuleRef
        },
{
    if let Ok((st2, r2)) = handle_repetitions(st, name, rule, ls, min, max) {
        let x = rule.subrange(ls, rule.len() as int);
        let l = x.len() as int;
        let no_max = max == u64::MAX;
        let base = if min == 0 {
            rule.subrange(0, ls)
        } else {
            rule + repeat_seq(x, (min - 1) as nat)
        };
        lemma_repeat_seq(x, (min - 1) as nat);
        if min > 0 {
            assert(base.len() == ls + min * l) by {
                assert((min - 1) * l + l == min * l) by (nonlinear_arith);
            }
        } else {
            assert(min * l == 0);
        }
        assert forall|c: int, i: int| 0 <= c < min && 0 <= i < l implies #[trigger] r2[ls + c * l + i] == x[i] by {
            assert(0 <= c * l) by (nonlinear_arith)
                requires
                    0 <= c,
                    0 <= l,
            ;
            assert(c * l + i < min * l) by (nonlinear_arith)
                requires
                    c < min,
                    0 <= i < l,
            ;
            assert(r2[ls + c * l + i] == base[ls + c * l + i]);
            if c == 0 {
                assert(base[ls + i] == rule[ls + i]);
            } else {
                assert(c * l == (c - 1) * l + l) by (nonlinear_arith);
                assert((c - 1) * l + i < (min - 1) * l) by (nonlinear_arith)
                    requires
                        c < min,
                        0 <= i < l,
                ;
                assert(0 <= (c - 1) * l) by (nonlinear_arith)
                    requires
                        1 <= c,
                        0 <= l,
                ;
                assert(base[ls + c * l + i] == repeat_seq(x, (min - 1) as nat)[(c - 1) * l + i]);
            }
        }
        assert forall|i: int| 0 <= i < ls implies r2[i] == rule[i] by {
            assert(r2[i] == base[i]);
        }
    }
}

} // verus!
