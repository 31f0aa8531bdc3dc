//! The GBNF parser: text to rules and symbol table, as `gbnf` specifies.
use vstd::prelude::*;
use crate::error::{ErrorView, GrammarError};
use crate::gbnf::{
    ParseState, add_rule, at_pos, comment_end, empty_state, gen_name, generate_symbol_id,
    get_symbol_id, perr, space_end, word_end, digit_end, is_word_byte, is_digit_byte, dec_value,
    hex_run, utf8_len, utf8_lead_bits, utf8_cont, lemma_digit_end, lit_loop, class_loop, el,
    lemma_parse_char, repeat_seq, rep_rules, brace_bounds, lemma_space_end, lemma_parse_int,
    MAX_REPETITION_THRESHOLD, seq_loop, alternates, alt_loop, lemma_parse_name, lemma_lit_loop,
    lemma_class_loop, lemma_brace_bounds, braced_repetition, Step, item_step, literal_item,
    class_item, ref_item, any_item, rep_item, brace_item, group_item, lemma_seq_loop_unfold,
    lemma_alternates_unfold, lemma_alt_loop_unfold, rules_loop, validate_from, validate_refs,
    undefined_name, validate, spec_parse, lemma_validate_ok,
};
use crate::symbols::first_name_with;
use crate::text::string_of_chars;
use vstd::string::StringSliceAdditionalSpecFns;
use crate::types::wf_rules;
use crate::gbnf;
use crate::symbols::{SymbolTable, lookup, sorted};
use crate::text::{bytes_as_chars, copy_chars, push_char, push_decimal, push_decimal_chars, push_str};
use crate::types::{Element, ElementType, Rule, Rules};
use crate::error::ErrorView as EV;

verus! {

/// The rules as sequences of elements.
pub open spec fn rules_view(rules: &Vec<Vec<Element>>) -> Seq<Seq<Element>> {
    rules@.map_values(|r: Vec<Element>| r@)
}

/// Parsed grammar: rules + symbol table.
#[derive(Debug)]
pub struct ParsedGrammar {
    pub rules: Rules,
    pub symbol_ids: SymbolTable,
}

/// GBNF grammar parser.
struct Parser<'a> {
    src: &'a [u8],
    symbol_ids: SymbolTable,
    rules: Rules,
}

fn parse_error(msg: &str) -> (e: GrammarError)
    ensures
        e@ == perr(msg@),
{
    let mut s = String::new();
    push_str(&mut s, msg);
    GrammarError::ParseError(s)
}

fn parse_error_at(prefix: &str, pos: usize) -> (e: GrammarError)
    ensures
        e@ == perr(at_pos(prefix@, pos as int)),
{
    let mut s = String::new();
    push_str(&mut s, prefix);
    push_decimal(&mut s, pos as u64);
    GrammarError::ParseError(s)
}

impl<'a> Parser<'a> {
    spec fn state(&self) -> ParseState {
        ParseState { syms: self.symbol_ids@, rules: rules_view(&self.rules) }
    }

    fn new(src: &'a [u8]) -> (p: Self)
        ensures
            p.src@ == src@,
            p.state() == empty_state(),
    {
        let p = Parser { src, symbol_ids: SymbolTable::new(), rules: Vec::new() };
        assert(rules_view(&p.rules) =~= Seq::<Seq<Element>>::empty());
        p
    }

    fn get_symbol_id(&mut self, name: Vec<char>) -> (id: u32)
        ensures
            final(self).src == old(self).src,
            (final(self).state(), id) == get_symbol_id(old(self).state(), name@),
    {
        match self.symbol_ids.lookup_chars(&name) {
            Some(id) => id,
            None => {
                let next_id = self.symbol_ids.len() as u32;
                self.symbol_ids.insert(name, next_id);
                next_id
            },
        }
    }

    fn generate_symbol_id(&mut self, base_name: &Vec<char>) -> (id: u32)
        ensures
            final(self).src == old(self).src,
            (final(self).state(), id) == generate_symbol_id(old(self).state(), base_name@),
    {
        let next_id = self.symbol_ids.len() as u32;
        let mut name = copy_chars(base_name);
        name.push('_');
        push_decimal_chars(&mut name, next_id as u64);
        assert(name@ =~= gen_name(base_name@, next_id));
        self.symbol_ids.insert(name, next_id);
        next_id
    }

    fn add_rule(&mut self, rule_id: u32, rule: Rule)
        ensures
            final(self).src == old(self).src,
            final(self).state() == add_rule(old(self).state(), rule_id, rule@),
    {
        let ghost old_rules = rules_view(&self.rules);
        let id = rule_id as usize;
        if self.rules.len() <= id {
            while self.rules.len() <= id
                invariant
                    old_rules.len() <= id,
                    old_rules.len() <= self.rules@.len() <= id + 1,
                    rules_view(&self.rules) =~= old_rules + Seq::new(
                        (self.rules@.len() - old_rules.len()) as nat,
                        |i: int| Seq::<Element>::empty(),
                    ),
                    self.src == old(self).src,
                    self.symbol_ids == old(self).symbol_ids,
                decreases id + 1 - self.rules@.len(),
            {
                let ghost before = rules_view(&self.rules);
                let empty: Vec<Element> = Vec::new();
                self.rules.push(empty);
                assert(rules_view(&self.rules) =~= before.push(Seq::<Element>::empty()));
            }
        }
        self.rules.set(id, rule);
        assert(rules_view(&self.rules) =~= add_rule(old(self).state(), rule_id, rule@).rules);
    }

    // ── Lexing helpers ──────────────────────────────────────────────

    /// Skip whitespace, comments; if newline_ok, skip newlines too.
    fn parse_space(&self, pos: usize, newline_ok: bool) -> (r: usize)
        requires
            pos <= self.src@.len(),
        ensures
            r == space_end(self.src@, pos as int, newline_ok),
    {
        let ghost src = self.src@;
        let mut p = pos;
        while p < self.src.len()
            invariant
                src == self.src@,
                p <= src.len(),
                space_end(src, pos as int, newline_ok) == space_end(src, p as int, newline_ok),
            decreases src.len() - p,
        {
            let c = self.src[p];
            if c == 32 || c == 9 || c == 35 || (newline_ok && (c == 13 || c == 10)) {
                if c == 35 {
                    let ghost start = p as int;
                    while p < self.src.len() && self.src[p] != 13 && self.src[p] != 10
                        invariant
                            src == self.src@,
                            start <= p <= src.len(),
                            p > start ==> comment_end(src, start + 1) == comment_end(src, p as int),
                            src[start] == 35,
                        decreases src.len() - p,
                    {
                        p = p + 1;
                    }
                } else {
                    p = p + 1;
                }
            } else {
                assert(space_end(src, p as int, newline_ok) == p);
                return p;
            }
        }
        p
    }

    /// Parse a name: [a-zA-Z0-9_-]+
    fn parse_name(&self, pos: usize) -> (r: Result<(Vec<char>, usize), GrammarError>)
        requires
            pos <= self.src@.len(),
        ensures
            match gbnf::parse_name(self.src@, pos as int) {
                Ok((nm, ne)) => r matches Ok((v, e)) && v@ == nm && e == ne,
                Err(er) => r matches Err(x) && x@ == er,
            },
    {
        let ghost src = self.src@;
        let start = pos;
        let mut p = pos;
        while p < self.src.len() && is_word_char(self.src[p])
            invariant
                src == self.src@,
                start <= p <= src.len(),
                word_end(src, start as int) == word_end(src, p as int),
            decreases src.len() - p,
        {
            p = p + 1;
        }
        if p == start {
            return Err(parse_error_at("expecting name at position ", pos));
        }
        let mut name: Vec<char> = Vec::new();
        let mut i = start;
        while i < p
            invariant
                src == self.src@,
                start <= i <= p <= src.len(),
                name@ == bytes_as_chars(src.subrange(start as int, i as int)),
            decreases p - i,
        {
            name.push(self.src[i] as char);
            i = i + 1;
            assert(name@ =~= bytes_as_chars(src.subrange(start as int, i as int)));
        }
        Ok((name, p))
    }

    /// Parse an integer: [0-9]+
    fn parse_int(&self, pos: usize) -> (r: Result<(u64, usize), GrammarError>)
        requires
            pos <= self.src@.len(),
        ensures
            match gbnf::parse_int(self.src@, pos as int) {
                Ok((v, ne)) => r == Ok::<(u64, usize), GrammarError>((v, ne as usize)),
                Err(er) => r matches Err(x) && x@ == er,
            },
    {
        let ghost src = self.src@;
        let start = pos;
        let mut p = pos;
        while p < self.src.len() && self.src[p] >= 48 && self.src[p] <= 57
            invariant
                src == self.src@,
                start <= p <= src.len(),
                digit_end(src, start as int) == digit_end(src, p as int),
            decreases src.len() - p,
        {
            p = p + 1;
        }
        assert(digit_end(src, p as int) == p as int);
        if p == start {
            return Err(parse_error_at("expecting integer at position ", pos));
        }
        proof {
            lemma_digit_end(src, start as int);
        }
        let ghost digits = src.subrange(start as int, p as int);
        let mut val: u64 = 0;
        let mut i = start;
        while i < p
            invariant
                src == self.src@,
                start <= i <= p <= src.len(),
                digits == src.subrange(start as int, p as int),
                digit_end(src, start as int) == p as int,
                start < p,
                start == pos,
                forall|j: int| start <= j < p ==> is_digit_byte(#[trigger] src[j]),
                val as nat == dec_value(src.subrange(start as int, i as int)),
            decreases p - i,
        {
            let d = (self.src[i] - 48) as u64;
            assert(src.subrange(start as int, i + 1).drop_last() =~= src.subrange(start as int, i as int));
            match val.checked_mul(10) {
                Some(m) => match m.checked_add(d) {
                    Some(v) => {
                        val = v;
                    },
                    None => {
                        proof {
                            assert(dec_value(src.subrange(start as int, i + 1)) == val * 10 + d);
                            lemma_dec_value_prefix(digits, (i + 1 - start) as int);
                            assert(digits.subrange(0, i + 1 - start) =~= src.subrange(start as int, i + 1));
                            assert(dec_value(digits) > u64::MAX);
                            assert(gbnf::parse_int(src, pos as int) == Err::<(u64, int), ErrorView>(perr("invalid integer: "@ + bytes_as_chars(digits))));
                        }
                        return Err(self.invalid_integer(start, p));
                    },
                },
                None => {
                    proof {
                        assert(dec_value(src.subrange(start as int, i + 1)) == val * 10 + d);
                        lemma_dec_value_prefix(digits, (i + 1 - start) as int);
                        assert(digits.subrange(0, i + 1 - start) =~= src.subrange(start as int, i + 1));
                    }
                    return Err(self.invalid_integer(start, p));
                },
            }
            i = i + 1;
        }
        Ok((val, p))
    }

    fn invalid_integer(&self, start: usize, end: usize) -> (e: GrammarError)
        requires
            start <= end <= self.src@.len(),
        ensures
            e@ == perr("invalid integer: "@ + bytes_as_chars(self.src@.subrange(start as int, end as int))),
    {
        let mut s = String::new();
        push_str(&mut s, "invalid integer: ");
        let ghost s0 = s@;
        let mut i = start;
        while i < end
            invariant
                start <= i <= end <= self.src@.len(),
                s@ == s0 + bytes_as_chars(self.src@.subrange(start as int, i as int)),
            decreases end - i,
        {
            push_char(&mut s, self.src[i] as char);
            i = i + 1;
            assert(s@ =~= s0 + bytes_as_chars(self.src@.subrange(start as int, i as int)));
        }
        GrammarError::ParseError(s)
    }

    /// Parse a hex escape: exactly `size` hex digits.
    fn parse_hex(&self, pos: usize, size: usize) -> (r: Result<(u32, usize), GrammarError>)
        requires
            pos <= self.src@.len(),
            size <= 8,
        ensures
            match gbnf::parse_hex(self.src@, pos as int, size as nat) {
                Ok((v, ne)) => r == Ok::<(u32, usize), GrammarError>((v, ne as usize)),
                Err(er) => r matches Err(x) && x@ == er,
            },
    {
        let ghost src = self.src@;
        let mut p = pos;
        let mut value: u32 = 0;
        while p - pos < size && p < self.src.len() && self.src[p] != 0
            invariant
                src == self.src@,
                pos <= p <= src.len(),
                p - pos <= size <= 8,
                value < pow16((p - pos) as nat),
                hex_run(src, pos as int, size as nat, 0) == hex_run(
                    src,
                    p as int,
                    (size - (p - pos)) as nat,
                    value as nat,
                ),
            ensures
                pos <= p <= src.len(),
                p - pos <= size,
                value < pow16((p - pos) as nat),
                hex_run(src, pos as int, size as nat, 0) == (value as nat, p as int),
            decreases size - (p - pos),
        {
            let c = self.src[p];
            let d: u32 = if c >= 48 && c <= 57 {
                (c - 48) as u32
            } else if c >= 97 && c <= 102 {
                (c - 97 + 10) as u32
            } else if c >= 65 && c <= 70 {
                (c - 65 + 10) as u32
            } else {
                break;
            };
            proof {
                lemma_pow16_le((p - pos) as nat, 7);
                assert(value * 16 + d < pow16((p - pos + 1) as nat)) by (nonlinear_arith)
                    requires
                        value < pow16((p - pos) as nat),
                        d < 16,
                        pow16((p - pos + 1) as nat) == 16 * pow16((p - pos) as nat),
                ;
                assert(pow16(7) == 268435456) by {
                    reveal_with_fuel(pow16, 8);
                }
            }
            value = value * 16 + d;
            p = p + 1;
        }
        if p - pos != size {
            let mut s = String::new();
            push_str(&mut s, "expecting ");
            push_decimal(&mut s, size as u64);
            push_str(&mut s, " hex chars at position ");
            push_decimal(&mut s, pos as u64);
            return Err(GrammarError::ParseError(s));
        }
        Ok((value, p))
    }

    /// Parse a single character (with escape handling), return (codepoint, new_pos).
    fn parse_char(&self, pos: usize) -> (r: Result<(u32, usize), GrammarError>)
        requires
            pos <= self.src@.len(),
        ensures
            match gbnf::parse_char(self.src@, pos as int) {
                Ok((v, ne)) => r == Ok::<(u32, usize), GrammarError>((v, ne as usize)),
                Err(er) => r matches Err(x) && x@ == er,
            },
    {
        if pos >= self.src.len() {
            return Err(parse_error("unexpected end of input"));
        }
        if self.src[pos] == 92 {
            if pos + 1 >= self.src.len() {
                return Err(parse_error("unexpected end of input after backslash"));
            }
            let e = self.src[pos + 1];
            if e == 120 {
                self.parse_hex(pos + 2, 2)
            } else if e == 117 {
                self.parse_hex(pos + 2, 4)
            } else if e == 85 {
                self.parse_hex(pos + 2, 8)
            } else if e == 116 {
                Ok((9, pos + 2))
            } else if e == 114 {
                Ok((13, pos + 2))
            } else if e == 110 {
                Ok((10, pos + 2))
            } else if e == 92 || e == 34 || e == 91 || e == 93 {
                Ok((e as u32, pos + 2))
            } else {
                let mut s = String::new();
                push_str(&mut s, "unknown escape '\\");
                push_char(&mut s, e as char);
                push_str(&mut s, "' at position ");
                push_decimal(&mut s, pos as u64);
                assert(s@ =~= "unknown escape '\\"@ + seq![e as char] + at_pos("' at position "@, pos as int));
                Err(GrammarError::ParseError(s))
            }
        } else {
            decode_utf8_at(self.src, pos)
        }
    }
}

/// An element that continues a character set: a range end or a further member.
pub open spec fn is_cont(e: Element) -> bool {
    e.etype == ElementType::CharAlt || e.etype == ElementType::CharRngUpper
}

/// An element of a character set other than `.`.
pub open spec fn is_set_elem(e: Element) -> bool {
    e.etype == ElementType::Char || e.etype == ElementType::CharNot || e.etype == ElementType::CharAlt
        || e.etype == ElementType::CharRngUpper
}

/// The elements of a rule before its final `End`: no `End` among them, and
/// each continuation of a character set follows an element of a set.
pub open spec fn body_ok(r: Seq<Element>) -> bool {
    &&& forall|i: int| 0 <= i < r.len() ==> (#[trigger] r[i]).etype != ElementType::End
    &&& forall|i: int| 0 <= i < r.len() && is_cont(#[trigger] r[i]) ==> i > 0 && is_set_elem(r[i - 1])
}

/// `ls`, where the last item of `r` starts, is the end of `r` or an element
/// that does not continue a set.
pub open spec fn item_start_ok(r: Seq<Element>, ls: int) -> bool {
    ls == r.len() || (0 <= ls < r.len() && !is_cont(r[ls]))
}

/// A complete rule: `End` last and nowhere else, and each continuation of a
/// character set after an element of a set.
pub open spec fn rule_shaped(r: Seq<Element>) -> bool {
    r.len() > 0 && r.last() == el(ElementType::End, 0) && body_ok(r.drop_last())
}

/// `r1` keeps the first `k` elements of `r0`.
pub open spec fn keeps_prefix(r0: Seq<Element>, r1: Seq<Element>, k: int) -> bool {
    &&& 0 <= k <= r0.len()
    &&& k <= r1.len()
    &&& forall|i: int| 0 <= i < k ==> #[trigger] r1[i] == r0[i]
}

/// No element of `r` from `k` on separates alternatives.
pub open spec fn no_alt_from(r: Seq<Element>, k: int) -> bool {
    forall|i: int| k <= i < r.len() ==> (#[trigger] r[i]).etype != ElementType::Alt
}

/// A byte that can begin an item of a sequence.
pub open spec fn starts_item(c: u8) -> bool {
    c == 34 || c == 91 || is_word_byte(c) || c == 40 || c == 46 || c == 42 || c == 43 || c == 63
        || c == 123
}

proof fn lemma_no_alt_repeat(prev: Seq<Element>, k: nat)
    requires
        no_alt_from(prev, 0),
    ensures
        no_alt_from(repeat_seq(prev, k), 0),
    decreases k,
{
    if k > 0 {
        lemma_no_alt_repeat(prev, (k - 1) as nat);
        let a = repeat_seq(prev, (k - 1) as nat);
        let t = a + prev;
        assert forall|i: int| 0 <= i < t.len() implies (#[trigger] t[i]).etype != ElementType::Alt by {
            if i < a.len() {
                assert(t[i] == a[i]);
            } else {
                assert(t[i] == prev[i - a.len()]);
            }
        }
    }
}

/// A repetition keeps the rule before the repeated item, and adds no `Alt`.
proof fn lemma_handle_repetitions_prefix(
    st: ParseState,
    name: Seq<char>,
    rule: Seq<Element>,
    ls: int,
    min: u64,
    max: u64,
)
    requires
        0 <= ls <= rule.len(),
    ensures
        gbnf::handle_repetitions(st, name, rule, ls, min, max) matches Ok((st2, r2)) ==> keeps_prefix(
            rule,
            r2,
            ls,
        ) && (no_alt_from(rule, ls) ==> no_alt_from(r2, ls)),
{
    let no_max = max == u64::MAX;
    if ls != rule.len() && !(!no_max && max < min) {
        let prev = rule.subrange(ls, rule.len() as int);
        let base = if min == 0 {
            rule.subrange(0, ls)
        } else {
            rule + repeat_seq(prev, (min - 1) as nat)
        };
        let n: nat = if no_max {
            1
        } else {
            (max - min) as nat
        };
        let (st2, last) = rep_rules(st, name, prev, no_max, 0, n, 0);
        let r2 = if n > 0 {
            base.push(el(ElementType::RuleRef, last))
        } else {
            base
        };
        assert forall|i: int| 0 <= i < ls implies #[trigger] r2[i] == rule[i] by {
            assert(r2[i] == base[i]);
        }
        if no_alt_from(rule, ls) {
            assert(no_alt_from(prev, 0)) by {
                assert forall|i: int| 0 <= i < prev.len() implies (#[trigger] prev[i]).etype
                    != ElementType::Alt by {
                    assert(prev[i] == rule[ls + i]);
                }
            }
            if min > 0 {
                lemma_no_alt_repeat(prev, (min - 1) as nat);
            }
            assert forall|i: int| ls <= i < r2.len() implies (#[trigger] r2[i]).etype != ElementType::Alt by {
                if i < base.len() {
                    assert(r2[i] == base[i]);
                    if min > 0 && i >= rule.len() {
                        assert(base[i] == repeat_seq(prev, (min - 1) as nat)[i - rule.len()]);
                    } else if min > 0 {
                        assert(base[i] == rule[i]);
                    }
                }
            }
        }
    }
}

/// Every rule of a parsed grammar is complete.
pub open spec fn rules_shaped(rules: Seq<Seq<Element>>) -> bool {
    forall|i: int| 0 <= i < rules.len() ==> rule_shaped(#[trigger] rules[i])
}

/// Every rule is either still empty or complete.
pub open spec fn rules_ended(rules: Seq<Seq<Element>>) -> bool {
    forall|i: int| 0 <= i < rules.len() ==> #[trigger] rules[i].len() == 0 || rule_shaped(rules[i])
}

proof fn lemma_body_push(r: Seq<Element>, e: Element)
    requires
        body_ok(r),
        e.etype != ElementType::End,
        !is_cont(e),
    ensures
        body_ok(r.push(e)),
{
    let t = r.push(e);
    assert forall|i: int| 0 <= i < t.len() && is_cont(#[trigger] t[i]) implies i > 0 && is_set_elem(t[i - 1]) by {
        assert(t[i] == r[i]);
        assert(t[i - 1] == r[i - 1]);
    }
    assert forall|i: int| 0 <= i < t.len() implies (#[trigger] t[i]).etype != ElementType::End by {
        if i < r.len() {
            assert(t[i] == r[i]);
        }
    }
}

proof fn lemma_body_prefix(r: Seq<Element>, n: int)
    requires
        body_ok(r),
        0 <= n <= r.len(),
    ensures
        body_ok(r.subrange(0, n)),
{
    let t = r.subrange(0, n);
    assert forall|i: int| 0 <= i < t.len() && is_cont(#[trigger] t[i]) implies i > 0 && is_set_elem(t[i - 1]) by {
        assert(t[i] == r[i]);
        assert(t[i - 1] == r[i - 1]);
    }
    assert forall|i: int| 0 <= i < t.len() implies (#[trigger] t[i]).etype != ElementType::End by {
        assert(t[i] == r[i]);
    }
}

proof fn lemma_body_suffix(r: Seq<Element>, ls: int)
    requires
        body_ok(r),
        0 <= ls < r.len(),
        !is_cont(r[ls]),
    ensures
        body_ok(r.subrange(ls, r.len() as int)),
{
    let t = r.subrange(ls, r.len() as int);
    assert forall|i: int| 0 <= i < t.len() && is_cont(#[trigger] t[i]) implies i > 0 && is_set_elem(t[i - 1]) by {
        assert(t[i] == r[ls + i]);
        if i > 0 {
            assert(t[i - 1] == r[ls + i - 1]);
        }
    }
    assert forall|i: int| 0 <= i < t.len() implies (#[trigger] t[i]).etype != ElementType::End by {
        assert(t[i] == r[ls + i]);
    }
}

proof fn lemma_body_append(a: Seq<Element>, b: Seq<Element>)
    requires
        body_ok(a),
        body_ok(b),
        b.len() == 0 || !is_cont(b[0]),
    ensures
        body_ok(a + b),
{
    let t = a + b;
    assert forall|i: int| 0 <= i < t.len() && is_cont(#[trigger] t[i]) implies i > 0 && is_set_elem(t[i - 1]) by {
        if i < a.len() {
            assert(t[i] == a[i]);
            assert(t[i - 1] == a[i - 1]);
        } else {
            assert(t[i] == b[i - a.len()]);
            assert(i - a.len() > 0);
            assert(t[i - 1] == b[i - 1 - a.len()]);
        }
    }
    assert forall|i: int| 0 <= i < t.len() implies (#[trigger] t[i]).etype != ElementType::End by {
        if i < a.len() {
            assert(t[i] == a[i]);
        } else {
            assert(t[i] == b[i - a.len()]);
        }
    }
}

proof fn lemma_body_repeat(a: Seq<Element>, prev: Seq<Element>, k: nat)
    requires
        body_ok(a),
        body_ok(prev),
        prev.len() == 0 || !is_cont(prev[0]),
    ensures
        body_ok(a + repeat_seq(prev, k)),
    decreases k,
{
    if k == 0 {
        assert(a + repeat_seq(prev, k) =~= a);
    } else {
        lemma_body_repeat(a, prev, (k - 1) as nat);
        assert(a + repeat_seq(prev, k) =~= (a + repeat_seq(prev, (k - 1) as nat)) + prev);
        lemma_body_append(a + repeat_seq(prev, (k - 1) as nat), prev);
    }
}

proof fn lemma_add_rule_ended(st: ParseState, id: u32, r: Seq<Element>)
    requires
        rules_ended(st.rules),
        r.len() == 0 || rule_shaped(r),
    ensures
        rules_ended(add_rule(st, id, r).rules),
{
    let rs = add_rule(st, id, r).rules;
    assert forall|i: int| 0 <= i < rs.len() implies #[trigger] rs[i].len() == 0 || rule_shaped(rs[i]) by {
        if i != id && i < st.rules.len() {
            assert(rs[i] == st.rules[i]);
        }
    }
}

proof fn lemma_rep_rules_ended(
    st: ParseState,
    name: Seq<char>,
    prev: Seq<Element>,
    no_max: bool,
    i: nat,
    n: nat,
    last: u32,
)
    requires
        rules_ended(st.rules),
        body_ok(prev),
    ensures
        rules_ended(rep_rules(st, name, prev, no_max, i, n, last).0.rules),
    decreases n - i,
{
    if i < n {
        let (st1, rec_id) = generate_symbol_id(st, name);
        let body = if i > 0 || no_max {
            prev.push(el(ElementType::RuleRef, if no_max { rec_id } else { last }))
        } else {
            prev
        };
        if i > 0 || no_max {
            lemma_body_push(prev, el(ElementType::RuleRef, if no_max { rec_id } else { last }));
        }
        lemma_body_push(body, el(ElementType::Alt, 0));
        let rec = body.push(el(ElementType::Alt, 0)).push(el(ElementType::End, 0));
        assert(rec.drop_last() =~= body.push(el(ElementType::Alt, 0)));
        lemma_add_rule_ended(st1, rec_id, rec);
        lemma_rep_rules_ended(add_rule(st1, rec_id, rec), name, prev, no_max, i + 1, n, rec_id);
    }
}

/// A repetition keeps the rule being built and the stored rules in shape.
proof fn lemma_handle_repetitions_shape(
    st: ParseState,
    name: Seq<char>,
    rule: Seq<Element>,
    ls: int,
    min: u64,
    max: u64,
)
    requires
        body_ok(rule),
        item_start_ok(rule, ls),
        rules_ended(st.rules),
    ensures
        gbnf::handle_repetitions(st, name, rule, ls, min, max) matches Ok((st2, r2)) ==> body_ok(r2)
            && item_start_ok(r2, ls) && rules_ended(st2.rules),
{
    let no_max = max == u64::MAX;
    if ls != rule.len() && !(!no_max && max < min) {
        let prev = rule.subrange(ls, rule.len() as int);
        lemma_body_suffix(rule, ls);
        assert(prev[0] == rule[ls]);
        let base = if min == 0 {
            rule.subrange(0, ls)
        } else {
            rule + repeat_seq(prev, (min - 1) as nat)
        };
        if min == 0 {
            lemma_body_prefix(rule, ls);
        } else {
            lemma_body_repeat(rule, prev, (min - 1) as nat);
            assert(base[ls] == rule[ls]);
        }
        let n: nat = if no_max {
            1
        } else {
            (max - min) as nat
        };
        let (st2, last) = rep_rules(st, name, prev, no_max, 0, n, 0);
        lemma_rep_rules_ended(st, name, prev, no_max, 0, n, 0);
        if n > 0 {
            lemma_body_push(base, el(ElementType::RuleRef, last));
            let r2 = base.push(el(ElementType::RuleRef, last));
            assert(r2[ls] == if ls < base.len() { base[ls] } else { el(ElementType::RuleRef, last) });
        }
    }
}

fn append_elems(dst: &mut Vec<Element>, src: &Vec<Element>)
    ensures
        final(dst)@ == old(dst)@ + src@,
{
    let mut i: usize = 0;
    while i < src.len()
        invariant
            i <= src@.len(),
            dst@ == old(dst)@ + src@.subrange(0, i as int),
        decreases src@.len() - i,
    {
        dst.push(src[i]);
        i = i + 1;
        assert(dst@ =~= old(dst)@ + src@.subrange(0, i as int));
    }
    assert(src@.subrange(0, src@.len() as int) =~= src@);
}

impl<'a> Parser<'a> {
    fn parse_literal(&self, pos: usize, rule: &mut Rule) -> (r: Result<usize, GrammarError>)
        requires
            pos <= self.src@.len(),
            body_ok(old(rule)@),
        ensures
            body_ok(final(rule)@),
            keeps_prefix(old(rule)@, final(rule)@, old(rule)@.len() as int),
            forall|i: int| old(rule)@.len() <= i < final(rule)@.len() ==> (#[trigger] final(rule)@[i]).etype
                == ElementType::Char,
            match lit_loop(self.src@, pos as int, old(rule)@) {
                Ok((q, rr)) => r == Ok::<usize, GrammarError>(q as usize) && final(rule)@ == rr,
                Err(e) => r matches Err(x) && x@ == e,
            },
    {
        let ghost src = self.src@;
        let mut p = pos;
        while p < self.src.len() && self.src[p] != 34
            invariant
                src == self.src@,
                p <= src.len(),
                lit_loop(src, pos as int, old(rule)@) == lit_loop(src, p as int, rule@),
                body_ok(rule@),
                keeps_prefix(old(rule)@, rule@, old(rule)@.len() as int),
                forall|i: int| old(rule)@.len() <= i < rule@.len() ==> (#[trigger] rule@[i]).etype
                    == ElementType::Char,
            decreases src.len() - p,
        {
            proof {
                lemma_parse_char(src, p as int);
            }
            match self.parse_char(p) {
                Ok((cp, np)) => {
                    p = np;
                    proof {
                        lemma_body_push(rule@, el(ElementType::Char, cp));
                    }
                    rule.push(Element::char_(cp));
                },
                Err(e) => {
                    return Err(e);
                },
            }
        }
        Ok(p)
    }

    fn parse_class(&self, pos: usize, rule: &mut Rule, start: usize, start_type: ElementType) -> (r:
        Result<usize, GrammarError>)
        requires
            pos <= self.src@.len(),
            body_ok(old(rule)@),
            start == old(rule)@.len(),
            start_type == ElementType::Char || start_type == ElementType::CharNot,
        ensures
            body_ok(final(rule)@),
            final(rule)@.len() >= start,
            final(rule)@.len() > start ==> !is_cont(final(rule)@[start as int]),
            keeps_prefix(old(rule)@, final(rule)@, start as int),
            forall|i: int| start <= i < final(rule)@.len() ==> is_set_elem(#[trigger] final(rule)@[i]),
            match class_loop(self.src@, pos as int, old(rule)@, start as int, start_type) {
                Ok((q, rr)) => r == Ok::<usize, GrammarError>(q as usize) && final(rule)@ == rr,
                Err(e) => r matches Err(x) && x@ == e,
            },
    {
        let ghost src = self.src@;
        let mut p = pos;
        while p < self.src.len() && self.src[p] != 93
            invariant
                src == self.src@,
                p <= src.len(),
                class_loop(src, pos as int, old(rule)@, start as int, start_type) == class_loop(
                    src,
                    p as int,
                    rule@,
                    start as int,
                    start_type,
                ),
                body_ok(rule@),
                rule@.len() >= start,
                rule@.len() > start ==> !is_cont(rule@[start as int]) && is_set_elem(rule@.last()),
                start_type == ElementType::Char || start_type == ElementType::CharNot,
                start == old(rule)@.len(),
                keeps_prefix(old(rule)@, rule@, start as int),
                forall|i: int| start <= i < rule@.len() ==> is_set_elem(#[trigger] rule@[i]),
            decreases src.len() - p,
        {
            proof {
                lemma_parse_char(src, p as int);
            }
            match self.parse_char(p) {
                Ok((cp, np)) => {
                    p = np;
                    let etype = if rule.len() > start {
                        ElementType::CharAlt
                    } else {
                        start_type
                    };
                    proof {
                        let t = rule@.push(el(etype, cp));
                        assert(etype == ElementType::CharAlt || etype == start_type);
                        assert(t[rule@.len() as int] == el(etype, cp));
                        assert forall|i: int| 0 <= i < t.len() && is_cont(#[trigger] t[i]) implies i > 0
                            && is_set_elem(t[i - 1]) by {
                            if i < rule@.len() {
                                assert(t[i] == rule@[i]);
                                assert(t[i - 1] == rule@[i - 1]);
                            } else {
                                assert(etype == ElementType::CharAlt);
                                assert(rule@.len() > start);
                                assert(t[i - 1] == rule@.last());
                            }
                        }
                        assert forall|i: int| 0 <= i < t.len() implies (#[trigger] t[i]).etype
                            != ElementType::End by {
                            if i < rule@.len() {
                                assert(t[i] == rule@[i]);
                            }
                        }
                    }
                    rule.push(Element::new(etype, cp));
                    if p < self.src.len() && self.src[p] == 45 && p + 1 < self.src.len()
                        && self.src[p + 1] != 93 {
                        proof {
                            lemma_parse_char(src, p + 1);
                        }
                        match self.parse_char(p + 1) {
                            Ok((end_cp, np2)) => {
                                p = np2;
                                proof {
                                    let t = rule@.push(el(ElementType::CharRngUpper, end_cp));
                                    assert forall|i: int| 0 <= i < t.len() && is_cont(#[trigger] t[i])
                                        implies i > 0 && is_set_elem(t[i - 1]) by {
                                        if i < rule@.len() {
                                            assert(t[i] == rule@[i]);
                                            assert(t[i - 1] == rule@[i - 1]);
                                        } else {
                                            assert(t[i - 1] == rule@.last());
                                        }
                                    }
                                    assert forall|i: int| 0 <= i < t.len() implies (#[trigger] t[i]).etype
                                        != ElementType::End by {
                                        if i < rule@.len() {
                                            assert(t[i] == rule@[i]);
                                        }
                                    }
                                }
                                rule.push(Element::char_rng_upper(end_cp));
                            },
                            Err(e) => {
                                return Err(e);
                            },
                        }
                    }
                },
                Err(e) => {
                    return Err(e);
                },
            }
        }
        Ok(p)
    }

    /// Handle repetition modifiers (*, +, ?, {n,m}).
    fn handle_repetitions(
        &mut self,
        rule_name: &Vec<char>,
        rule: &mut Rule,
        last_sym_start: usize,
        min_times: u64,
        max_times: u64,
    ) -> (r: Result<(), GrammarError>)
        requires
            last_sym_start <= old(rule)@.len(),
        ensures
            r is Ok ==> keeps_prefix(old(rule)@, final(rule)@, last_sym_start as int) && (no_alt_from(
                old(rule)@,
                last_sym_start as int,
            ) ==> no_alt_from(final(rule)@, last_sym_start as int)),
            final(self).src == old(self).src,
            match gbnf::handle_repetitions(
                old(self).state(),
                rule_name@,
                old(rule)@,
                last_sym_start as int,
                min_times,
                max_times,
            ) {
                Ok((st, rr)) => r is Ok && final(self).state() == st && final(rule)@ == rr,
                Err(e) => r matches Err(x) && x@ == e,
            },
            r is Err ==> final(self).state() == old(self).state() && final(rule)@ == old(rule)@,
            r is Ok && body_ok(old(rule)@) && item_start_ok(old(rule)@, last_sym_start as int)
                && rules_ended(old(self).state().rules) ==> body_ok(final(rule)@) && item_start_ok(
                final(rule)@,
                last_sym_start as int,
            ) && rules_ended(final(self).state().rules),
    {
        proof {
            if body_ok(rule@) && item_start_ok(rule@, last_sym_start as int) && rules_ended(
                self.state().rules,
            ) {
                lemma_handle_repetitions_shape(self.state(), rule_name@, rule@, last_sym_start as int, min_times, max_times);
            }
            lemma_handle_repetitions_prefix(self.state(), rule_name@, rule@, last_sym_start as int, min_times, max_times);
        }
        let no_max = max_times == u64::MAX;
        if last_sym_start == rule.len() {
            return Err(parse_error("expecting preceding item for repetition operator"));
        }
        if !no_max && max_times < min_times {
            return Err(parse_error("repetition maximum is less than minimum"));
        }
        let ghost rule0 = rule@;
        let ghost st0 = self.state();
        let mut prev_rule: Vec<Element> = Vec::new();
        let mut k = last_sym_start;
        while k < rule.len()
            invariant
                last_sym_start <= k <= rule@.len(),
                rule@ == rule0,
                prev_rule@ == rule0.subrange(last_sym_start as int, k as int),
            decreases rule@.len() - k,
        {
            prev_rule.push(rule[k]);
            k = k + 1;
            assert(prev_rule@ =~= rule0.subrange(last_sym_start as int, k as int));
        }
        if min_times == 0 {
            rule.truncate(last_sym_start);
        } else {
            let mut t: u64 = 1;
            while t < min_times
                invariant
                    1 <= t <= min_times,
                    rule@ == rule0 + repeat_seq(prev_rule@, (t - 1) as nat),
                decreases min_times - t,
            {
                append_elems(rule, &prev_rule);
                t = t + 1;
                assert(rule@ =~= rule0 + repeat_seq(prev_rule@, (t - 1) as nat));
            }
        }
        let ghost base = rule@;
        let mut last_rec_rule_id: u32 = 0;
        let n_opt: u64 = if no_max {
            1
        } else {
            max_times - min_times
        };
        let mut i: u64 = 0;
        while i < n_opt
            invariant
                i <= n_opt,
                self.src == old(self).src,
                rule@ == base,
                rep_rules(st0, rule_name@, prev_rule@, no_max, 0, n_opt as nat, 0) == rep_rules(
                    self.state(),
                    rule_name@,
                    prev_rule@,
                    no_max,
                    i as nat,
                    n_opt as nat,
                    last_rec_rule_id,
                ),
            decreases n_opt - i,
        {
            let mut rec_rule: Vec<Element> = Vec::new();
            append_elems(&mut rec_rule, &prev_rule);
            let rec_rule_id = self.generate_symbol_id(rule_name);
            if i > 0 || no_max {
                let ref_id = if no_max {
                    rec_rule_id
                } else {
                    last_rec_rule_id
                };
                rec_rule.push(Element::rule_ref(ref_id));
            }
            rec_rule.push(Element::alt());
            rec_rule.push(Element::end());
            assert(rec_rule@ =~= (if i > 0 || no_max {
                prev_rule@.push(el(ElementType::RuleRef, if no_max { rec_rule_id } else { last_rec_rule_id }))
            } else {
                prev_rule@
            }).push(el(ElementType::Alt, 0)).push(el(ElementType::End, 0)));
            self.add_rule(rec_rule_id, rec_rule);
            last_rec_rule_id = rec_rule_id;
            i = i + 1;
        }
        if n_opt > 0 {
            rule.push(Element::rule_ref(last_rec_rule_id));
        }
        Ok(())
    }

    /// The bounds of `{n}`, `{n,}` or `{n,m}`, body at `p`.
    fn parse_brace(&self, p: usize, nested: bool) -> (r: Result<(u64, u64, usize), GrammarError>)
        requires
            p <= self.src@.len(),
        ensures
            match brace_bounds(self.src@, p as int, nested) {
                Ok((mn, mx, q)) => r == Ok::<(u64, u64, usize), GrammarError>((mn, mx, q as usize)),
                Err(e) => r matches Err(x) && x@ == e,
            },
    {
        let ghost src = self.src@;
        if p >= self.src.len() || !(self.src[p] >= 48 && self.src[p] <= 57) {
            return Err(parse_error_at("expecting integer at position ", p));
        }
        proof {
            lemma_parse_int(src, p as int);
        }
        let (min_times, np) = match self.parse_int(p) {
            Ok(v) => v,
            Err(e) => {
                return Err(e);
            },
        };
        proof {
            lemma_space_end(src, np as int, nested);
        }
        let p2 = self.parse_space(np, nested);
        if p2 < self.src.len() && self.src[p2] == 125 {
            proof {
                lemma_space_end(src, p2 + 1, nested);
            }
            let q = self.parse_space(p2 + 1, nested);
            return Ok((min_times, min_times, q));
        } else if p2 < self.src.len() && self.src[p2] == 44 {
            proof {
                lemma_space_end(src, p2 + 1, nested);
            }
            let p3 = self.parse_space(p2 + 1, nested);
            let max_times;
            let p4;
            if p3 < self.src.len() && self.src[p3] >= 48 && self.src[p3] <= 57 {
                proof {
                    lemma_parse_int(src, p3 as int);
                }
                let (v, np2) = match self.parse_int(p3) {
                    Ok(v) => v,
                    Err(e) => {
                        return Err(e);
                    },
                };
                max_times = v;
                proof {
                    lemma_space_end(src, np2 as int, nested);
                }
                p4 = self.parse_space(np2, nested);
            } else {
                max_times = u64::MAX;
                p4 = p3;
            }
            if p4 >= self.src.len() || self.src[p4] != 125 {
                return Err(parse_error_at("expecting '}' at position ", p4));
            }
            proof {
                lemma_space_end(src, p4 + 1, nested);
            }
            let q = self.parse_space(p4 + 1, nested);
            return Ok((min_times, max_times, q));
        } else {
            return Err(parse_error_at("expecting ',' or '}' at position ", p2));
        }
    }
}

/// What an exec item parser returns, against the spec's `Step`.
pub open spec fn item_matches(
    r: Result<Option<(usize, usize)>, GrammarError>,
    spec: Result<Step, ErrorView>,
    st0: ParseState,
    rule0: Seq<Element>,
    st1: ParseState,
    rule1: Seq<Element>,
) -> bool {
    match spec {
        Ok(Step::Stop) => r == Ok::<Option<(usize, usize)>, GrammarError>(None) && st1 == st0
            && rule1 == rule0,
        Ok(Step::Next(q, st, rr, ls)) => r matches Ok(Some((eq, els))) && eq as int == q && els as int
            == ls && st1 == st && rule1 == rr,
        Err(e) => r matches Err(x) && x@ == e,
    }
}

impl<'a> Parser<'a> {
    fn literal_item(&self, p: usize, rule: &mut Rule, is_nested: bool) -> (r: Result<Option<(usize, usize)>, GrammarError>)
        requires
            body_ok(old(rule)@),
            p < self.src@.len(),
        ensures
            r matches Ok(x) ==> x is Some,
            r matches Ok(Some((q, ls))) ==> ls == old(rule)@.len() && keeps_prefix(old(rule)@, final(rule)@, ls as int)
                && no_alt_from(final(rule)@, ls as int),
            r matches Ok(Some((q, ls))) ==> body_ok(final(rule)@) && item_start_ok(final(rule)@, ls as int),
            item_matches(r, literal_item(self.src@, p as int, self.state(), old(rule)@, is_nested), self.state(), old(rule)@, self.state(), final(rule)@),
            r matches Ok(Some((q, ls))) ==> p < q <= self.src@.len() && ls <= final(rule)@.len(),
    {
        reveal(literal_item);
        let src_len = self.src.len();
        assert(p + 1 <= src_len);
        let ghost src = self.src@;
        proof {
            lemma_lit_loop(src, p + 1, rule@);
        }
        let start = rule.len();
        let q = match self.parse_literal(p + 1, rule) {
            Ok(q) => q,
            Err(e) => {
                return Err(e);
            },
        };
        if q >= self.src.len() {
            return Err(parse_error("unexpected end of input in string literal"));
        }
        proof {
            lemma_space_end(src, q + 1, is_nested);
        }
        Ok(Some((self.parse_space(q + 1, is_nested), start)))
    }

    fn class_item(&self, p: usize, rule: &mut Rule, is_nested: bool) -> (r: Result<Option<(usize, usize)>, GrammarError>)
        requires
            body_ok(old(rule)@),
            p < self.src@.len(),
        ensures
            r matches Ok(x) ==> x is Some,
            r matches Ok(Some((q, ls))) ==> ls == old(rule)@.len() && keeps_prefix(old(rule)@, final(rule)@, ls as int)
                && no_alt_from(final(rule)@, ls as int),
            r matches Ok(Some((q, ls))) ==> body_ok(final(rule)@) && item_start_ok(final(rule)@, ls as int),
            item_matches(r, class_item(self.src@, p as int, self.state(), old(rule)@, is_nested), self.state(), old(rule)@, self.state(), final(rule)@),
            r matches Ok(Some((q, ls))) ==> p < q <= self.src@.len() && ls <= final(rule)@.len(),
    {
        reveal(class_item);
        let src_len = self.src.len();
        assert(p + 1 <= src_len);
        let ghost src = self.src@;
        let negated = p + 1 < self.src.len() && self.src[p + 1] == 94;
        let p1 = if negated {
            p + 2
        } else {
            p + 1
        };
        let start_type = if negated {
            ElementType::CharNot
        } else {
            ElementType::Char
        };
        let start = rule.len();
        proof {
            lemma_class_loop(src, p1 as int, rule@, start as int, start_type);
        }
        let q = match self.parse_class(p1, rule, start, start_type) {
            Ok(q) => q,
            Err(e) => {
                return Err(e);
            },
        };
        if q >= self.src.len() {
            return Err(parse_error("unexpected end of input in character range"));
        }
        proof {
            lemma_space_end(src, q + 1, is_nested);
        }
        Ok(Some((self.parse_space(q + 1, is_nested), start)))
    }

    fn ref_item(&mut self, p: usize, rule: &mut Rule, is_nested: bool) -> (r: Result<Option<(usize, usize)>, GrammarError>)
        requires
            body_ok(old(rule)@),
            p < old(self).src@.len(),
            rules_ended(old(self).state().rules),
        ensures
            r matches Ok(x) ==> x is Some,
            r matches Ok(Some((q, ls))) ==> ls == old(rule)@.len() && keeps_prefix(old(rule)@, final(rule)@, ls as int)
                && no_alt_from(final(rule)@, ls as int),
            r matches Ok(Some((q, ls))) ==> body_ok(final(rule)@) && item_start_ok(final(rule)@, ls as int),
            final(self).src == old(self).src,
            item_matches(r, ref_item(old(self).src@, p as int, old(self).state(), old(rule)@, is_nested), old(self).state(), old(rule)@, final(self).state(), final(rule)@),
            r matches Ok(Some((q, ls))) ==> p < q <= old(self).src@.len() && ls <= final(rule)@.len(),
            r is Ok ==> rules_ended(final(self).state().rules),
    {
        reveal(ref_item);
        let ghost src = self.src@;
        proof {
            lemma_parse_name(src, p as int);
        }
        let (name_chars, name_end) = match self.parse_name(p) {
            Ok(v) => v,
            Err(e) => {
                return Err(e);
            },
        };
        let ref_rule_id = self.get_symbol_id(name_chars);
        proof {
            lemma_space_end(src, name_end as int, is_nested);
        }
        let q = self.parse_space(name_end, is_nested);
        let start = rule.len();
        proof {
            lemma_body_push(rule@, el(ElementType::RuleRef, ref_rule_id));
        }
        rule.push(Element::rule_ref(ref_rule_id));
        Ok(Some((q, start)))
    }

    fn any_item(&self, p: usize, rule: &mut Rule, is_nested: bool) -> (r: Result<Option<(usize, usize)>, GrammarError>)
        requires
            body_ok(old(rule)@),
            p < self.src@.len(),
        ensures
            r matches Ok(x) ==> x is Some,
            r matches Ok(Some((q, ls))) ==> ls == old(rule)@.len() && keeps_prefix(old(rule)@, final(rule)@, ls as int)
                && no_alt_from(final(rule)@, ls as int),
            r matches Ok(Some((q, ls))) ==> body_ok(final(rule)@) && item_start_ok(final(rule)@, ls as int),
            item_matches(r, any_item(self.src@, p as int, self.state(), old(rule)@, is_nested), self.state(), old(rule)@, self.state(), final(rule)@),
            r matches Ok(Some((q, ls))) ==> p < q <= self.src@.len() && ls <= final(rule)@.len(),
    {
        reveal(any_item);
        let src_len = self.src.len();
        assert(p + 1 <= src_len);
        let start = rule.len();
        proof {
            lemma_body_push(rule@, el(ElementType::CharAny, 0));
        }
        rule.push(Element::char_any());
        proof {
            lemma_space_end(self.src@, p + 1, is_nested);
        }
        Ok(Some((self.parse_space(p + 1, is_nested), start)))
    }

    fn rep_item(&mut self, p: usize, rule_name: &Vec<char>, rule: &mut Rule, last_sym_start: usize, is_nested: bool) -> (r: Result<Option<(usize, usize)>, GrammarError>)
        requires
            body_ok(old(rule)@),
            item_start_ok(old(rule)@, last_sym_start as int),
            p < old(self).src@.len(),
            last_sym_start <= old(rule)@.len(),
            rules_ended(old(self).state().rules),
        ensures
            r matches Ok(x) ==> x is Some,
            r matches Ok(Some((q, ls))) ==> ls == last_sym_start && keeps_prefix(old(rule)@, final(rule)@, ls as int)
                && (no_alt_from(old(rule)@, ls as int) ==> no_alt_from(final(rule)@, ls as int)),
            r matches Ok(Some((q, ls))) ==> body_ok(final(rule)@) && item_start_ok(final(rule)@, ls as int),
            final(self).src == old(self).src,
            item_matches(r, rep_item(old(self).src@, p as int, old(self).state(), old(rule)@, last_sym_start as int, rule_name@, is_nested), old(self).state(), old(rule)@, final(self).state(), final(rule)@),
            r matches Ok(Some((q, ls))) ==> p < q <= old(self).src@.len() && ls <= final(rule)@.len(),
            r is Ok ==> rules_ended(final(self).state().rules),
    {
        reveal(rep_item);
        let src_len = self.src.len();
        assert(p + 1 <= src_len);
        let ghost rule0 = rule@;
        proof {
            lemma_space_end(self.src@, p + 1, is_nested);
            crate::gbnf::lemma_handle_repetitions_len(self.state(), rule_name@, rule@, last_sym_start as int, 0, 1);
            crate::gbnf::lemma_handle_repetitions_len(self.state(), rule_name@, rule@, last_sym_start as int, 0, u64::MAX);
            crate::gbnf::lemma_handle_repetitions_len(self.state(), rule_name@, rule@, last_sym_start as int, 1, u64::MAX);
        }
        let q = self.parse_space(p + 1, is_nested);
        let c = self.src[p];
        let (min_times, max_times): (u64, u64) = if c == 42 {
            (0, u64::MAX)
        } else if c == 43 {
            (1, u64::MAX)
        } else {
            (0, 1)
        };
        match self.handle_repetitions(rule_name, rule, last_sym_start, min_times, max_times) {
            Ok(()) => Ok(Some((q, last_sym_start))),
            Err(e) => Err(e),
        }
    }

    fn brace_item(&mut self, p: usize, rule_name: &Vec<char>, rule: &mut Rule, last_sym_start: usize, is_nested: bool) -> (r: Result<Option<(usize, usize)>, GrammarError>)
        requires
            body_ok(old(rule)@),
            item_start_ok(old(rule)@, last_sym_start as int),
            p < old(self).src@.len(),
            last_sym_start <= old(rule)@.len(),
            rules_ended(old(self).state().rules),
        ensures
            r matches Ok(x) ==> x is Some,
            r matches Ok(Some((q, ls))) ==> ls == last_sym_start && keeps_prefix(old(rule)@, final(rule)@, ls as int)
                && (no_alt_from(old(rule)@, ls as int) ==> no_alt_from(final(rule)@, ls as int)),
            r matches Ok(Some((q, ls))) ==> body_ok(final(rule)@) && item_start_ok(final(rule)@, ls as int),
            final(self).src == old(self).src,
            item_matches(r, brace_item(old(self).src@, p as int, old(self).state(), old(rule)@, last_sym_start as int, rule_name@, is_nested), old(self).state(), old(rule)@, final(self).state(), final(rule)@),
            r matches Ok(Some((q, ls))) ==> p < q <= old(self).src@.len() && ls <= final(rule)@.len(),
            r is Ok ==> rules_ended(final(self).state().rules),
    {
        reveal(brace_item);
        let src_len = self.src.len();
        assert(p + 1 <= src_len);
        let ghost src = self.src@;
        proof {
            lemma_space_end(src, p + 1, is_nested);
        }
        let p1 = self.parse_space(p + 1, is_nested);
        proof {
            lemma_brace_bounds(src, p1 as int, is_nested);
        }
        let (min_times, max_times, q) = match self.parse_brace(p1, is_nested) {
            Ok(v) => v,
            Err(e) => {
                return Err(e);
            },
        };
        let has_max = max_times != u64::MAX;
        if min_times > MAX_REPETITION_THRESHOLD || (has_max && max_times
            > MAX_REPETITION_THRESHOLD) {
            return Err(parse_error("repetition count exceeds maximum threshold"));
        }
        proof {
            crate::gbnf::lemma_handle_repetitions_len(self.state(), rule_name@, rule@, last_sym_start as int, min_times, max_times);
        }
        match self.handle_repetitions(rule_name, rule, last_sym_start, min_times, max_times) {
            Ok(()) => Ok(Some((q, last_sym_start))),
            Err(e) => Err(e),
        }
    }

    fn group_item(&mut self, p: usize, rule_name: &Vec<char>, rule: &mut Rule, is_nested: bool) -> (r: Result<Option<(usize, usize)>, GrammarError>)
        requires
            body_ok(old(rule)@),
            p < old(self).src@.len(),
            rules_ended(old(self).state().rules),
        ensures
            r matches Ok(x) ==> x is Some,
            r matches Ok(Some((q, ls))) ==> ls == old(rule)@.len() && keeps_prefix(old(rule)@, final(rule)@, ls as int)
                && no_alt_from(final(rule)@, ls as int),
            r matches Ok(Some((q, ls))) ==> body_ok(final(rule)@) && item_start_ok(final(rule)@, ls as int),
            final(self).src == old(self).src,
            item_matches(r, group_item(old(self).src@, p as int, old(self).state(), old(rule)@, rule_name@, is_nested), old(self).state(), old(rule)@, final(self).state(), final(rule)@),
            r matches Ok(Some((q, ls))) ==> p < q <= old(self).src@.len() && ls <= final(rule)@.len(),
            r is Ok ==> rules_ended(final(self).state().rules),
        decreases old(self).src@.len() - p, 0nat,
    {
        let src_len = self.src.len();
        assert(p + 1 <= src_len);
        let ghost src = self.src@;
        proof {
            lemma_space_end(src, p + 1, true);
        }
        let p1 = self.parse_space(p + 1, true);
        let sub_rule_id = self.generate_symbol_id(rule_name);
        let q = match self.parse_alternates(p1, rule_name, sub_rule_id, true) {
            Ok(q) => q,
            Err(e) => {
                return Err(e);
            },
        };
        let start = rule.len();
        proof {
            lemma_body_push(rule@, el(ElementType::RuleRef, sub_rule_id));
        }
        rule.push(Element::rule_ref(sub_rule_id));
        if q >= self.src.len() || self.src[q] != 41 {
            return Err(parse_error_at("expecting ')' at position ", q));
        }
        proof {
            lemma_space_end(src, q + 1, is_nested);
        }
        Ok(Some((self.parse_space(q + 1, is_nested), start)))
    }

    /// One item of a sequence at `p`: `Ok(None)` when no item starts there, else
    /// the position after it and where the last item now starts.
    fn parse_item(
        &mut self,
        p: usize,
        rule_name: &Vec<char>,
        rule: &mut Rule,
        last_sym_start: usize,
        is_nested: bool,
    ) -> (r: Result<Option<(usize, usize)>, GrammarError>)
        requires
            body_ok(old(rule)@),
            item_start_ok(old(rule)@, last_sym_start as int),
            p < old(self).src@.len(),
            last_sym_start <= old(rule)@.len(),
            rules_ended(old(self).state().rules),
        ensures
            r matches Ok(Some((q, ls))) ==> last_sym_start <= ls && keeps_prefix(old(rule)@, final(rule)@, ls as int)
                && (no_alt_from(old(rule)@, last_sym_start as int) ==> no_alt_from(final(rule)@, ls as int)),
            r matches Ok(None) ==> !starts_item(old(self).src@[p as int]),
            r matches Ok(Some((q, ls))) ==> body_ok(final(rule)@) && item_start_ok(final(rule)@, ls as int),
            final(self).src == old(self).src,
            item_matches(r, item_step(old(self).src@, p as int, old(self).state(), old(rule)@, last_sym_start as int, rule_name@, is_nested), old(self).state(), old(rule)@, final(self).state(), final(rule)@),
            r matches Ok(Some((q, ls))) ==> p < q <= old(self).src@.len() && ls <= final(rule)@.len(),
            r is Ok ==> rules_ended(final(self).state().rules),
        decreases old(self).src@.len() - p, 1nat,
    {
        let c = self.src[p];
        if c == 34 {
            self.literal_item(p, rule, is_nested)
        } else if c == 91 {
            self.class_item(p, rule, is_nested)
        } else if is_word_char(c) {
            self.ref_item(p, rule, is_nested)
        } else if c == 40 {
            self.group_item(p, rule_name, rule, is_nested)
        } else if c == 46 {
            self.any_item(p, rule, is_nested)
        } else if c == 42 || c == 43 || c == 63 {
            self.rep_item(p, rule_name, rule, last_sym_start, is_nested)
        } else if c == 123 {
            self.brace_item(p, rule_name, rule, last_sym_start, is_nested)
        } else {
            Ok(None)
        }
    }

    fn parse_sequence(
        &mut self,
        pos: usize,
        rule_name: &Vec<char>,
        rule: &mut Rule,
        is_nested: bool,
    ) -> (r: Result<usize, GrammarError>)
        requires
            body_ok(old(rule)@),
            pos <= old(self).src@.len(),
            rules_ended(old(self).state().rules),
        ensures
            r matches Ok(q) ==> keeps_prefix(old(rule)@, final(rule)@, old(rule)@.len() as int)
                && no_alt_from(final(rule)@, old(rule)@.len() as int)
                && (forall|i: int| old(rule)@.len() <= i < final(rule)@.len() ==> (#[trigger] final(rule)@[i]).etype
                    != ElementType::End)
                && (forall|i: int| old(rule)@.len() <= i < final(rule)@.len() && is_cont(#[trigger] final(rule)@[i])
                    ==> i > old(rule)@.len() && is_set_elem(final(rule)@[i - 1]))
                && (q == old(self).src@.len() || !starts_item(old(self).src@[q as int])),
            r is Ok ==> body_ok(final(rule)@),
            final(self).src == old(self).src,
            match seq_loop(
                old(self).src@,
                pos as int,
                old(self).state(),
                old(rule)@,
                old(rule)@.len() as int,
                rule_name@,
                is_nested,
            ) {
                Ok((q, st, rr)) => r == Ok::<usize, GrammarError>(q as usize) && final(self).state()
                    == st && final(rule)@ == rr && pos <= q <= old(self).src@.len(),
                Err(e) => r matches Err(x) && x@ == e,
            },
            r is Ok ==> rules_ended(final(self).state().rules),
        decreases old(self).src@.len() - pos, 2nat,
    {
        let ghost src = self.src@;
        let ghost name = rule_name@;
        let ghost spec_result = seq_loop(
            src,
            pos as int,
            self.state(),
            rule@,
            rule@.len() as int,
            name,
            is_nested,
        );
        let mut last_sym_start = rule.len();
        let mut p = pos;
        while p < self.src.len()
            invariant
                src == self.src@,
                self.src == old(self).src,
                pos <= p <= src.len(),
                last_sym_start <= rule@.len(),
                rules_ended(self.state().rules),
                body_ok(rule@),
                item_start_ok(rule@, last_sym_start as int),
                old(rule)@.len() <= last_sym_start,
                keeps_prefix(old(rule)@, rule@, old(rule)@.len() as int),
                no_alt_from(rule@, old(rule)@.len() as int),
                rule@.len() == old(rule)@.len() || !is_cont(rule@[old(rule)@.len() as int]),
                name == rule_name@,
                spec_result == seq_loop(
                    src,
                    pos as int,
                    old(self).state(),
                    old(rule)@,
                    old(rule)@.len() as int,
                    rule_name@,
                    is_nested,
                ),
                spec_result == seq_loop(
                    src,
                    p as int,
                    self.state(),
                    rule@,
                    last_sym_start as int,
                    name,
                    is_nested,
                ),
            decreases src.len() - p,
        {
            proof {
                lemma_seq_loop_unfold(src, p as int, self.state(), rule@, last_sym_start as int, name, is_nested);
                assert(src.len() == self.src.len());
            }
            let ghost prev = rule@;
            match self.parse_item(p, rule_name, rule, last_sym_start, is_nested) {
                Ok(Some((q, lss))) => {
                    proof {
                        let n = old(rule)@.len() as int;
                        assert forall|i: int| 0 <= i < n implies #[trigger] rule@[i] == old(rule)@[i] by {
                            assert(rule@[i] == prev[i]);
                        }
                        assert forall|i: int| n <= i < rule@.len() implies (#[trigger] rule@[i]).etype
                            != ElementType::Alt by {
                            if i < lss {
                                assert(rule@[i] == prev[i]);
                            }
                        }
                        if rule@.len() > n && lss > n {
                            assert(rule@[n] == prev[n]);
                        }
                    }
                    p = q;
                    last_sym_start = lss;
                },
                Ok(None) => {
                    return Ok(p);
                },
                Err(e) => {
                    return Err(e);
                },
            }
        }
        proof {
            lemma_seq_loop_unfold(src, p as int, self.state(), rule@, last_sym_start as int, name, is_nested);
        }
        Ok(p)
    }

    fn parse_alternates(
        &mut self,
        pos: usize,
        rule_name: &Vec<char>,
        rule_id: u32,
        is_nested: bool,
    ) -> (r: Result<usize, GrammarError>)
        requires
            pos <= old(self).src@.len(),
            rules_ended(old(self).state().rules),
        ensures
            final(self).src == old(self).src,
            match alternates(
                old(self).src@,
                pos as int,
                old(self).state(),
                rule_name@,
                rule_id,
                is_nested,
            ) {
                Ok((q, st)) => r == Ok::<usize, GrammarError>(q as usize) && final(self).state() == st
                    && pos <= q <= old(self).src@.len(),
                Err(e) => r matches Err(x) && x@ == e,
            },
            r is Ok ==> rules_ended(final(self).state().rules),
        decreases old(self).src@.len() - pos, 4nat,
    {
        let ghost src = self.src@;
        let ghost name = rule_name@;
        let ghost spec_result = alternates(src, pos as int, self.state(), name, rule_id, is_nested);
        proof {
            lemma_alternates_unfold(src, pos as int, self.state(), name, rule_id, is_nested);
        }
        let mut rule: Rule = Vec::new();
        assert(rule@ =~= Seq::<Element>::empty());
        assert(src.len() == self.src.len());
        let mut p = match self.parse_sequence(pos, rule_name, &mut rule, is_nested) {
            Ok(p) => p,
            Err(e) => {
                return Err(e);
            },
        };
        while p < self.src.len() && self.src[p] == 124
            invariant
                src == self.src@,
                self.src == old(self).src,
                pos <= p <= src.len(),
                rules_ended(self.state().rules),
                body_ok(rule@),
                name == rule_name@,
                spec_result == alternates(src, pos as int, old(self).state(), rule_name@, rule_id, is_nested),
                spec_result == alt_loop(src, p as int, self.state(), rule@, name, rule_id, is_nested),
            decreases src.len() - p,
        {
            proof {
                lemma_alt_loop_unfold(src, p as int, self.state(), rule@, name, rule_id, is_nested);
                assert(src.len() == self.src.len());
            }
            proof {
                lemma_body_push(rule@, el(ElementType::Alt, 0));
            }
            rule.push(Element::alt());
            proof {
                lemma_space_end(src, p + 1, true);
            }
            let p1 = self.parse_space(p + 1, true);
            p = match self.parse_sequence(p1, rule_name, &mut rule, is_nested) {
                Ok(q) => q,
                Err(e) => {
                    return Err(e);
                },
            };
        }
        proof {
            lemma_alt_loop_unfold(src, p as int, self.state(), rule@, name, rule_id, is_nested);
        }
        let ghost old_body = rule@;
        rule.push(Element::end());
        proof {
            assert(rule@.drop_last() =~= old_body);
            lemma_add_rule_ended(self.state(), rule_id, rule@);
        }
        self.add_rule(rule_id, rule);
        Ok(p)
    }
}

impl<'a> Parser<'a> {
    fn parse_rule(&mut self, pos: usize) -> (r: Result<usize, GrammarError>)
        requires
            pos <= old(self).src@.len(),
            rules_ended(old(self).state().rules),
        ensures
            final(self).src == old(self).src,
            match crate::gbnf::parse_rule(old(self).src@, pos as int, old(self).state()) {
                Ok((q, st)) => r == Ok::<usize, GrammarError>(q as usize) && final(self).state() == st
                    && pos < q <= old(self).src@.len(),
                Err(e) => r matches Err(x) && x@ == e,
            },
            r is Ok ==> rules_ended(final(self).state().rules),
    {
        let ghost src = self.src@;
        let len = self.src.len();
        proof {
            crate::gbnf::lemma_parse_name(src, pos as int);
        }
        let (name, name_end) = match self.parse_name(pos) {
            Ok(v) => v,
            Err(e) => {
                return Err(e);
            },
        };
        proof {
            lemma_space_end(src, name_end as int, false);
        }
        let p = self.parse_space(name_end, false);
        let rule_id = self.get_symbol_id(copy_chars(&name));
        if p >= len || len - p <= 2 || self.src[p] != 58 || self.src[p + 1] != 58 || self.src[p
            + 2] != 61 {
            return Err(parse_error_at("expecting '::=' at position ", p));
        }
        proof {
            lemma_space_end(src, p + 3, true);
        }
        let p1 = self.parse_space(p + 3, true);
        let q = match self.parse_alternates(p1, &name, rule_id, false) {
            Ok(q) => q,
            Err(e) => {
                return Err(e);
            },
        };
        let q2 = if q < len && self.src[q] == 13 {
            if q + 1 < len && self.src[q + 1] == 10 {
                q + 2
            } else {
                q + 1
            }
        } else if q < len && self.src[q] == 10 {
            q + 1
        } else if q < len {
            return Err(parse_error_at("expecting newline or end at position ", q));
        } else {
            q
        };
        proof {
            lemma_space_end(src, q2 as int, true);
        }
        Ok(self.parse_space(q2, true))
    }

    fn undefined_rule(&self, id: u32) -> (e: GrammarError)
        ensures
            e@ == EV::UndefinedRule(undefined_name(self.symbol_ids@, id)),
    {
        match self.symbol_ids.name_with_id(id) {
            Some(n) => GrammarError::UndefinedRule(string_of_chars(&n)),
            None => {
                let mut s = String::new();
                push_str(&mut s, "unknown");
                GrammarError::UndefinedRule(s)
            },
        }
    }

    fn validate(&self) -> (r: Result<(), GrammarError>)
        ensures
            match validate(self.state()) {
                Ok(()) => r is Ok,
                Err(e) => r matches Err(x) && x@ == e,
            },
    {
        let ghost st = self.state();
        if self.rules.len() == 0 {
            return Err(GrammarError::EmptyGrammar);
        }
        let mut idx: usize = 0;
        while idx < self.rules.len()
            invariant
                st == self.state(),
                idx <= st.rules.len(),
                st.rules.len() == self.rules@.len(),
                validate(st) == validate_from(st, idx as int),
            decreases st.rules.len() - idx,
        {
            assert(st.rules[idx as int] == self.rules@[idx as int]@);
            if self.rules[idx].len() == 0 {
                return Err(self.undefined_rule(idx as u32));
            }
            let mut j: usize = 0;
            while j < self.rules[idx].len()
                invariant
                    st == self.state(),
                    idx < st.rules.len(),
                    st.rules.len() == self.rules@.len(),
                    st.rules[idx as int] == self.rules@[idx as int]@,
                    j <= st.rules[idx as int].len(),
                    st.rules[idx as int].len() > 0,
                    validate(st) == validate_from(st, idx as int),
                    validate_refs(st, idx as int, 0) == validate_refs(st, idx as int, j as int),
                decreases st.rules[idx as int].len() - j,
            {
                let elem = self.rules[idx][j];
                if elem.etype == ElementType::RuleRef {
                    let ref_idx = elem.value as usize;
                    if ref_idx >= self.rules.len() || self.rules[ref_idx].len() == 0 {
                        proof {
                            if ref_idx < self.rules.len() {
                                assert(st.rules[ref_idx as int] == self.rules@[ref_idx as int]@);
                            }
                        }
                        return Err(self.undefined_rule(elem.value));
                    }
                    assert(st.rules[ref_idx as int] == self.rules@[ref_idx as int]@);
                }
                j = j + 1;
            }
            idx = idx + 1;
        }
        Ok(())
    }

    fn parse_all(&mut self) -> (r: Result<(), GrammarError>)
        requires
            old(self).state() == empty_state(),
        ensures
            final(self).src == old(self).src,
            match spec_parse(old(self).src@) {
                Ok(st) => r is Ok && final(self).state() == st,
                Err(e) => r matches Err(x) && x@ == e,
            },
            r is Ok ==> rules_ended(final(self).state().rules),
    {
        let ghost src = self.src@;
        let len = self.src.len();
        assert(rules_ended(self.state().rules));
        proof {
            lemma_space_end(src, 0, true);
        }
        let mut p = self.parse_space(0, true);
        while p < len
            invariant
                src == self.src@,
                self.src == old(self).src,
                len == src.len(),
                p <= len,
                rules_ended(self.state().rules),
                rules_loop(src, space_end(src, 0, true), empty_state()) == rules_loop(
                    src,
                    p as int,
                    self.state(),
                ),
            decreases len - p,
        {
            p = match self.parse_rule(p) {
                Ok(q) => q,
                Err(e) => {
                    return Err(e);
                },
            };
        }
        self.validate()
    }
}

/// Parse a GBNF grammar string into rules and symbol table.
pub fn parse(grammar_text: &str) -> (r: Result<ParsedGrammar, GrammarError>)
    ensures
        match spec_parse(grammar_text.spec_bytes()) {
            Ok(st) => r matches Ok(g) && g.symbol_ids@ == st.syms && rules_view(&g.rules)
                == st.rules,
            Err(e) => r matches Err(x) && x@ == e,
        },
        r matches Ok(g) ==> wf_rules(rules_view(&g.rules)) && sorted(g.symbol_ids@) && rules_shaped(
            rules_view(&g.rules),
        ),
{
    let mut parser = Parser::new(grammar_text.as_bytes());
    match parser.parse_all() {
        Ok(()) => {},
        Err(e) => {
            return Err(e);
        },
    }
    proof {
        lemma_validate_ok(parser.state());
        let rv = rules_view(&parser.rules);
        assert(rv.len() == parser.rules.len());
        assert forall|i: int| 0 <= i < rv.len() implies #[trigger] rv[i].len() <= usize::MAX by {
            assert(rv[i].len() == parser.rules@[i].len());
        }
        use_type_invariant(&parser.symbol_ids);
        assert forall|i: int| 0 <= i < rv.len() implies rule_shaped(#[trigger] rv[i]) by {
            assert(rv[i].len() > 0);
        }
    }
    Ok(ParsedGrammar { rules: parser.rules, symbol_ids: parser.symbol_ids })
}

fn is_word_char(c: u8) -> (b: bool)
    ensures
        b == is_word_byte(c),
{
    (c >= 97 && c <= 122) || (c >= 65 && c <= 90) || c == 45 || c == 95 || (c >= 48 && c <= 57)
}

pub open spec fn pow16(n: nat) -> nat
    decreases n,
{
    if n == 0 {
        1
    } else {
        16 * pow16((n - 1) as nat)
    }
}

proof fn lemma_pow16_le(a: nat, b: nat)
    requires
        a <= b,
    ensures
        pow16(a) <= pow16(b),
    decreases b,
{
    if a < b {
        lemma_pow16_le(a, (b - 1) as nat);
    }
}

proof fn lemma_dec_value_prefix(d: Seq<u8>, k: int)
    requires
        0 <= k <= d.len(),
    ensures
        dec_value(d.subrange(0, k)) <= dec_value(d),
    decreases d.len() - k,
{
    if k < d.len() {
        lemma_dec_value_prefix(d, k + 1);
        assert(d.subrange(0, k + 1).drop_last() =~= d.subrange(0, k));
    } else {
        assert(d.subrange(0, k) =~= d);
    }
}

/// Decode a single UTF-8 codepoint starting at `pos` in `src`.
fn decode_utf8_at(src: &[u8], pos: usize) -> (r: Result<(u32, usize), GrammarError>)
    ensures
        match gbnf::decode_utf8_at(src@, pos as int) {
            Ok((v, ne)) => r == Ok::<(u32, usize), GrammarError>((v, ne as usize)),
            Err(er) => r matches Err(x) && x@ == er,
        },
{
    if pos >= src.len() {
        return Err(parse_error("unexpected end of input"));
    }
    let first = src[pos];
    let (len, lead): (usize, u8) = if first < 0x80 {
        (1, first % 128)
    } else if first < 0xE0 {
        (2, first % 32)
    } else if first < 0xF0 {
        (3, first % 16)
    } else {
        (4, first % 8)
    };
    let mut value: u32 = lead as u32;
    let mut i: usize = 1;
    proof {
        reveal_with_fuel(pow64, 4);
        let q = pow64((len - 1) as nat);
        if len == 1 {
            assert(q == 1);
            assert(lead < 128);
            assert(lead as nat * q < 0x200000) by (nonlinear_arith) requires lead < 128, q == 1;
        } else if len == 2 {
            assert(q == 64);
            assert(lead < 32);
            assert(lead as nat * q < 0x200000) by (nonlinear_arith) requires lead < 32, q == 64;
        } else if len == 3 {
            assert(q == 4096);
            assert(lead < 16);
            assert(lead as nat * q < 0x200000) by (nonlinear_arith) requires lead < 16, q == 4096;
        } else {
            assert(q == 262144);
            assert(lead < 8);
            assert(lead as nat * q < 0x200000) by (nonlinear_arith) requires lead < 8, q == 262144;
        }
        assert(lead as nat * q < 0x200000);
    }
    while i < len
        invariant
            1 <= i <= len <= 4,
            len == utf8_len(first),
            first == src@[pos as int],
            lead as nat == utf8_lead_bits(first),
            pos < src@.len(),
            pos + i <= src@.len(),
            value as nat * pow64((len - i) as nat) < 0x200000,
            utf8_cont(src@, pos + 1, pos + len, lead as nat) == utf8_cont(
                src@,
                pos + i,
                pos + len,
                value as nat,
            ),
        decreases len - i,
    {
        if i >= src.len() - pos {
            return Err(parse_error("truncated UTF-8 sequence"));
        }
        let b = src[pos + i];
        proof {
            let k = (len - i - 1) as nat;
            assert(pow64((len - i) as nat) == 64 * pow64(k));
            assert(k <= 2);
            let r = (b % 64) as nat;
            let v = value as nat;
            if k == 0 {
                assert(pow64(k) == 1);
                assert(v * 64 < 0x200000);
                assert((v * 64 + r) * 1 < 0x200000);
            } else if k == 1 {
                assert(pow64(k) == 64) by {
                    reveal_with_fuel(pow64, 2);
                }
                assert(v * 4096 < 0x200000);
                assert((v * 64 + r) * 64 < 0x200000);
            } else {
                assert(pow64(k) == 4096) by {
                    reveal_with_fuel(pow64, 3);
                }
                assert(v * 262144 < 0x200000);
                assert((v * 64 + r) * 4096 < 0x200000);
            }
            assert((value as nat * 64 + (b % 64) as nat) * pow64(k) < 0x200000);
        }
        value = value * 64 + (b % 64) as u32;
        i = i + 1;
    }
    Ok((value, pos + len))
}

pub open spec fn pow64(n: nat) -> nat
    decreases n,
{
    if n == 0 {
        1
    } else {
        64 * pow64((n - 1) as nat)
    }
}

proof fn lemma_pow64_pos(n: nat)
    ensures
        pow64(n) >= 1,
    decreases n,
{
    if n > 0 {
        lemma_pow64_pos((n - 1) as nat);
    }
}


/// Decode a full string to code points, followed by a terminating zero.
pub fn decode_utf8_string(s: &str) -> (cps: Vec<u32>)
    ensures
        cps@ == crate::matcher::code_points(s@).push(0),
{
    let mut cps: Vec<u32> = Vec::new();
    for c in it: s.chars()
        invariant
            it.seq() == s@,
            cps@ == crate::matcher::code_points(it.seq().subrange(0, it.index() as int)),
    {
        cps.push(c as u32);
        assert(cps@ =~= crate::matcher::code_points(it.seq().subrange(0, it.index() + 1)));
    }
    assert(cps@ =~= crate::matcher::code_points(s@));
    cps.push(0);
    cps
}

fn copy_rule(rule: &Vec<Element>) -> (r: Vec<Element>)
    ensures
        r@ == rule@,
{
    let mut r: Vec<Element> = Vec::new();
    let mut i: usize = 0;
    while i < rule.len()
        invariant
            i <= rule@.len(),
            r@ == rule@.subrange(0, i as int),
        decreases rule@.len() - i,
    {
        r.push(rule[i]);
        i = i + 1;
        assert(r@ =~= rule@.subrange(0, i as int));
    }
    assert(rule@.subrange(0, rule@.len() as int) =~= rule@);
    r
}

pub(crate) fn copy_rules(rules: &Rules) -> (r: Rules)
    ensures
        rules_view(&r) == rules_view(rules),
{
    let mut r: Rules = Vec::new();
    let mut i: usize = 0;
    while i < rules.len()
        invariant
            i <= rules@.len(),
            rules_view(&r) == rules_view(rules).subrange(0, i as int),
        decreases rules@.len() - i,
    {
        let ghost before = r@;
        let c = copy_rule(&rules[i]);
        r.push(c);
        assert(r@ == before.push(c));
        assert(rules_view(&r) =~= before.map_values(|x: Vec<Element>| x@).push(c@));
        assert(rules_view(rules)[i as int] == rules@[i as int]@);
        assert(rules_view(&r) =~= rules_view(rules).subrange(0, i + 1));
        i = i + 1;
    }
    assert(rules_view(rules).subrange(0, rules@.len() as int) =~= rules_view(rules));
    r
}

impl Clone for ParsedGrammar {
    fn clone(&self) -> (r: Self)
        ensures
            rules_view(&r.rules) == rules_view(&self.rules),
            r.symbol_ids@ == self.symbol_ids@,
    {
        ParsedGrammar { rules: copy_rules(&self.rules), symbol_ids: self.symbol_ids.clone() }
    }
}

impl ParsedGrammar {
    /// Get the rule index for the "root" rule.
    pub fn root_index(&self) -> (r: Option<usize>)
        ensures
            match lookup(self.symbol_ids@, "root"@) {
                Some(id) => r == Some(id as usize),
                None => r is None,
            },
    {
        match self.symbol_ids.get("root") {
            Some(id) => Some(*id as usize),
            None => None,
        }
    }
}

} // verus!
