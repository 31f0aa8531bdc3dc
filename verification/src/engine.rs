//! The matcher's core algorithms: stack expansion, character matching and
//! consumption, initial stacks.
use vstd::prelude::*;
use crate::error::GrammarError;
use crate::matcher;
use crate::matcher::{
    MAX_RECURSION_DEPTH, StackV, add_unique, advance, advance_alts, alt_end, all_valid,
    after_match, elem_at, expand_top, init_loop, is_char_top, is_eos, lemma_advance_valid,
    lemma_alt_end, lemma_expand_top_valid, match_loop, stack_valid, top_matches,
    consumed, lemma_match_loop,
};
use crate::parse::rules_view;
use crate::types::{Element, ElementType, Pos, Rules, Stack, Stacks, wf_rules};

verus! {

/// The stacks as sequences of positions.
pub open spec fn stacks_view(stacks: &Vec<Vec<(usize, usize)>>) -> Seq<StackV> {
    stacks@.map_values(|s: Vec<(usize, usize)>| s@)
}

fn stacks_equal(a: &Stack, b: &Stack) -> (r: bool)
    ensures
        r == (a@ == b@),
{
    if a.len() != b.len() {
        return false;
    }
    let mut i: usize = 0;
    while i < a.len()
        invariant
            a@.len() == b@.len(),
            i <= a@.len(),
            forall|j: int| 0 <= j < i ==> a@[j] == b@[j],
        decreases a@.len() - i,
    {
        if a[i].0 != b[i].0 || a[i].1 != b[i].1 {
            return false;
        }
        i = i + 1;
    }
    assert(a@ =~= b@);
    true
}

fn contains_stack(stacks: &Stacks, s: &Stack) -> (r: bool)
    ensures
        r == stacks_view(stacks).contains(s@),
{
    let mut i: usize = 0;
    while i < stacks.len()
        invariant
            i <= stacks@.len(),
            forall|j: int| 0 <= j < i ==> stacks_view(stacks)[j] != s@,
        decreases stacks@.len() - i,
    {
        if stacks_equal(&stacks[i], s) {
            assert(stacks_view(stacks)[i as int] == s@);
            return true;
        }
        i = i + 1;
    }
    false
}

/// The first `n` positions of `s`.
pub(crate) fn stack_prefix(s: &Stack, n: usize) -> (r: Stack)
    requires
        n <= s@.len(),
    ensures
        r@ == s@.subrange(0, n as int),
{
    let mut r: Stack = Vec::new();
    let mut i: usize = 0;
    while i < n
        invariant
            n <= s@.len(),
            i <= n,
            r@ == s@.subrange(0, i as int),
        decreases n - i,
    {
        r.push(s[i]);
        i = i + 1;
        assert(r@ =~= s@.subrange(0, i as int));
    }
    r
}

fn push_unique(new_stacks: &mut Stacks, stack: &Stack)
    ensures
        stacks_view(final(new_stacks)) == add_unique(stacks_view(old(new_stacks)), stack@),
{
    if !contains_stack(new_stacks, stack) {
        let c = stack_prefix(stack, stack.len());
        assert(stack@.subrange(0, stack@.len() as int) =~= stack@);
        new_stacks.push(c);
        assert(stacks_view(new_stacks) =~= stacks_view(old(new_stacks)).push(stack@));
    }
}

/// Expand a stack until all tops are at terminal elements (char ranges).
pub(crate) fn advance_stack(rules: &Rules, stack: &Stack, new_stacks: &mut Stacks, depth: usize)
    requires
        wf_rules(rules_view(rules)),
        stack_valid(rules_view(rules), stack@),
    ensures
        stacks_view(final(new_stacks)) == advance(
            rules_view(rules),
            stack@,
            stacks_view(old(new_stacks)),
            depth as int,
        ),
    decreases MAX_RECURSION_DEPTH + 1 - depth,
{
    let ghost rv = rules_view(rules);
    if depth > MAX_RECURSION_DEPTH {
        return;
    }
    if stack.len() == 0 {
        push_unique(new_stacks, stack);
        return;
    }
    let pos = stack[stack.len() - 1];
    assert(stack@[stack@.len() - 1] == stack@.last());
    assert(rv[pos.0 as int] == rules@[pos.0 as int]@);
    let elem = rules[pos.0][pos.1];
    match elem.etype {
        ElementType::RuleRef => {
            let ref_rule_id = elem.value as usize;
            assert(rv[ref_rule_id as int] == rules@[ref_rule_id as int]@);
            assert(rv[pos.0 as int].last() == rv[pos.0 as int][rv[pos.0 as int].len() - 1]);
            let ghost rule = rv[ref_rule_id as int];
            assert(rule.last() == rule[rule.len() - 1]);
            let ghost target = advance_alts(rv, stack@, ref_rule_id as int, 0, stacks_view(new_stacks), depth as int);
            let mut subpos: usize = 0;
            loop
                invariant_except_break
                    subpos < rule.len(),
                    target == advance_alts(rv, stack@, ref_rule_id as int, subpos as int, stacks_view(new_stacks), depth as int),
                invariant
                    rv == rules_view(rules),
                    wf_rules(rv),
                    stack_valid(rv, stack@),
                    stack@.len() > 0,
                    pos == stack@.last(),
                    elem == elem_at(rv, pos),
                    elem.etype == ElementType::RuleRef,
                    ref_rule_id == elem.value,
                    rule == rv[ref_rule_id as int],
                    rule == rules@[ref_rule_id as int]@,
                    is_eos(rule.last()),
                    0 <= depth <= MAX_RECURSION_DEPTH,
                    ref_rule_id < rules@.len(),
                    rule.len() <= usize::MAX,
                ensures
                    stacks_view(new_stacks) == target,
                decreases rule.len() - subpos,
            {
                let mut new_stack = stack_prefix(stack, stack.len() - 1);
                assert(new_stack@ == stack@.drop_last());
                let next_pos = (pos.0, pos.1 + 1);
                assert(rv[pos.0 as int] == rules@[pos.0 as int]@);
                if !rules[next_pos.0][next_pos.1].is_end_of_sequence() {
                    new_stack.push(next_pos);
                }
                if !rules[ref_rule_id][subpos].is_end_of_sequence() {
                    new_stack.push((ref_rule_id, subpos));
                }
                assert(new_stack@ == expand_top(rv, stack@, ref_rule_id as int, subpos as int));
                proof {
                    lemma_expand_top_valid(rv, stack@, ref_rule_id as int, subpos as int);
                    lemma_alt_end(rule, subpos as int);
                }
                advance_stack(rules, &new_stack, new_stacks, depth + 1);
                let ghost start = subpos as int;
                let ghost acc2 = stacks_view(new_stacks);
                while !rules[ref_rule_id][subpos].is_end_of_sequence()
                    invariant
                        rule == rules@[ref_rule_id as int]@,
                        ref_rule_id < rules@.len(),
                        rule.len() <= usize::MAX,
                        start <= subpos <= alt_end(rule, start),
                        alt_end(rule, start) < rule.len(),
                        alt_end(rule, start) == alt_end(rule, subpos as int),
                        is_eos(rule.last()),
                        rule.len() > 0,
                    decreases rule.len() - subpos,
                {
                    proof {
                        assert(rule.last() == rule[rule.len() - 1]);
                        assert(subpos + 1 < rule.len());
                        lemma_alt_end(rule, subpos + 1);
                    }
                    subpos = subpos + 1;
                }
                if rules[ref_rule_id][subpos].etype == ElementType::Alt {
                    subpos = subpos + 1;
                } else {
                    break;
                }
            }
        },
        ElementType::Char | ElementType::CharNot | ElementType::CharAny => {
            push_unique(new_stacks, stack);
        },
        _ => {},
    }
}


/// Check if a character matches at a position. Returns (matched, pos_after_char_elements).
pub(crate) fn match_char(rules: &Rules, pos: Pos, chr: u32) -> (r: (bool, Pos))
    requires
        wf_rules(rules_view(rules)),
        pos.0 < rules_view(rules).len(),
        pos.1 < rules_view(rules)[pos.0 as int].len(),
        is_char_top(elem_at(rules_view(rules), pos)),
    ensures
        r == matcher::match_char(rules_view(rules), pos, chr),
        r.1.0 == pos.0,
        pos.1 < r.1.1 < rules_view(rules)[pos.0 as int].len(),
{
    let ghost rv = rules_view(rules);
    let rule = &rules[pos.0];
    assert(rule@ == rv[pos.0 as int]);
    assert(rule@.last() == rule@[rule@.len() - 1]);
    let mut ei = pos.1;
    let elem = rule[ei];
    let is_positive = elem.etype == ElementType::Char || elem.etype == ElementType::CharAny;
    let mut found = false;
    loop
        invariant_except_break
            pos.1 <= ei < rule@.len(),
            !is_eos(rule@[ei as int]),
            match_loop(rule@, pos.1 as int, chr, false) == match_loop(rule@, ei as int, chr, found),
        invariant
            is_eos(rule@.last()),
            rule@.len() <= usize::MAX,
            rule@.len() > 0,
        ensures
            pos.1 < ei < rule@.len(),
            match_loop(rule@, pos.1 as int, chr, false) == (found, ei as int),
        decreases rule@.len() - ei,
    {
        proof {
            lemma_match_loop(rule@, ei as int, chr, found);
        }
        if ei + 1 < rule.len() && rule[ei + 1].etype == ElementType::CharRngUpper {
            found = found || (rule[ei].value <= chr && chr <= rule[ei + 1].value);
            ei = ei + 2;
        } else if rule[ei].etype == ElementType::CharAny {
            found = true;
            ei = ei + 1;
        } else {
            found = found || rule[ei].value == chr;
            ei = ei + 1;
        }
        if ei >= rule.len() || rule[ei].etype != ElementType::CharAlt {
            break;
        }
    }
    (found == is_positive, (pos.0, ei))
}

/// Accept a character on a single stack, producing new expanded stacks.
pub(crate) fn accept_char(rules: &Rules, stack: &Stack, chr: u32, new_stacks: &mut Stacks)
    requires
        wf_rules(rules_view(rules)),
        stack_valid(rules_view(rules), stack@),
    ensures
        stacks_view(final(new_stacks)) == matcher::accept_char(
            rules_view(rules),
            stack@,
            chr,
            stacks_view(old(new_stacks)),
        ),
{
    let ghost rv = rules_view(rules);
    if stack.len() == 0 {
        return;
    }
    let pos = stack[stack.len() - 1];
    assert(stack@[stack@.len() - 1] == stack@.last());
    assert(rv[pos.0 as int] == rules@[pos.0 as int]@);
    let elem = rules[pos.0][pos.1];
    match elem.etype {
        ElementType::Char | ElementType::CharNot | ElementType::CharAny => {},
        _ => {
            return;
        },
    }
    let (matched, after_pos) = match_char(rules, pos, chr);
    if matched {
        let mut new_stack = stack_prefix(stack, stack.len() - 1);
        assert(new_stack@ == stack@.drop_last());
        if !rules[after_pos.0][after_pos.1].is_end_of_sequence() {
            new_stack.push(after_pos);
        }
        assert(new_stack@ == consumed(rv, stack@, chr));
        assert(stack_valid(rv, new_stack@)) by {
            assert forall|k: int| 0 <= k < new_stack@.len() implies (#[trigger] new_stack@[k]).0
                < rv.len() && new_stack@[k].1 < rv[new_stack@[k].0 as int].len() by {
                if k < stack@.len() - 1 {
                    assert(new_stack@[k] == stack@[k]);
                }
            }
        }
        advance_stack(rules, &new_stack, new_stacks, 0);
    }
}

/// Initialize stacks from the root rule.
pub(crate) fn init_stacks(rules: &Rules, start_rule_index: usize) -> (r: Result<Stacks, GrammarError>)
    requires
        wf_rules(rules_view(rules)),
    ensures
        match matcher::init_stacks(rules_view(rules), start_rule_index) {
            Ok(s) => r matches Ok(x) && stacks_view(&x) == s,
            Err(e) => r matches Err(x) && x@ == e,
        },
{
    let ghost rv = rules_view(rules);
    if start_rule_index >= rules.len() {
        return Err(GrammarError::InvalidStartRule(start_rule_index));
    }
    let rule = &rules[start_rule_index];
    assert(rule@ == rv[start_rule_index as int]);
    assert(rule@.last() == rule@[rule@.len() - 1]);
    let mut stacks: Stacks = Vec::new();
    assert(stacks_view(&stacks) =~= Seq::<StackV>::empty());
    let ghost target = init_loop(rv, start_rule_index, 0, Seq::empty());
    let mut ei: usize = 0;
    loop
        invariant_except_break
            ei < rule@.len(),
            target == init_loop(rv, start_rule_index, ei as int, stacks_view(&stacks)),
        invariant
            rv == rules_view(rules),
            wf_rules(rv),
            start_rule_index < rv.len(),
            rule@ == rv[start_rule_index as int],
            is_eos(rule@.last()),
            rule@.len() <= usize::MAX,
        ensures
            target == stacks_view(&stacks),
        decreases rule@.len() - ei,
    {
        let mut stack: Stack = Vec::new();
        if !rule[ei].is_end_of_sequence() {
            stack.push((start_rule_index, ei));
        }
        assert(stack@ == (if !is_eos(rule@[ei as int]) {
            seq![(start_rule_index, ei)]
        } else {
            Seq::<(usize, usize)>::empty()
        }));
        assert(stack_valid(rv, stack@));
        advance_stack(rules, &stack, &mut stacks, 0);
        proof {
            lemma_alt_end(rule@, ei as int);
        }
        let ghost start = ei as int;
        while !rule[ei].is_end_of_sequence()
            invariant
                start <= ei <= alt_end(rule@, start),
                alt_end(rule@, start) < rule@.len(),
                alt_end(rule@, start) == alt_end(rule@, ei as int),
                is_eos(rule@.last()),
                rule@.len() <= usize::MAX,
            decreases rule@.len() - ei,
        {
            proof {
                assert(rule@.last() == rule@[rule@.len() - 1]);
                lemma_alt_end(rule@, ei + 1);
            }
            ei = ei + 1;
        }
        if rule[ei].etype == ElementType::Alt {
            ei = ei + 1;
        } else {
            break;
        }
    }
    Ok(stacks)
}

} // verus!
