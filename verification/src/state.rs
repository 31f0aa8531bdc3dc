//! Compiled grammars and the runtime matching state.
use vstd::prelude::*;
use vstd::string::StringSliceAdditionalSpecFns;
use crate::engine::{accept_char, advance_stack, init_stacks, match_char, stack_prefix, stacks_view};
use crate::error::{ErrorView, GrammarError};
use crate::gbnf::{ParseState, spec_parse};
use crate::matcher::{
    StackV, accept_seq, accepting, advance, all_valid, any_accepts, can_accept, code_points,
    consumed, init_loop, is_char_top, is_eos, lemma_accept_char_valid, lemma_advance_valid,
    lemma_init_loop_valid, lemma_match_loop, rejected_message, stack_valid, step, step_from,
    token_allowed, top_matches, elem_at,
};
use crate::parse::{ParsedGrammar, copy_rules, decode_utf8_string, parse, rules_shaped, rules_view};
use crate::laws::{law_accept_seq_kept, law_initial_stacks_kept, well_kept};
use crate::recursion::{detect_left_recursion, left_recursion};
use crate::symbols::lookup;
use crate::text::{push_char, push_hex4, push_str, string_of_chars};
use crate::types::{Element, ElementType, Rules, Stack, Stacks, wf_rules};

verus! {

/// What a compiled grammar holds: its rules, its start rule and the name of
/// each rule.
pub struct GrammarView {
    pub rules: Seq<Seq<Element>>,
    pub root: usize,
    pub names: Seq<Seq<char>>,
}

/// The names of rules `0..n`, from the symbol table entries `k..` on (later
/// entries win; a rule without a name gets the empty name).
pub open spec fn names_fold(syms: Seq<(Seq<char>, u32)>, n: nat, k: int, acc: Seq<Seq<char>>) -> Seq<Seq<char>>
    decreases syms.len() - k,
{
    if 0 <= k < syms.len() {
        let id = syms[k].1;
        names_fold(syms, n, k + 1, if id < n { acc.update(id as int, syms[k].0) } else { acc })
    } else {
        acc
    }
}

pub open spec fn names_of(syms: Seq<(Seq<char>, u32)>, n: nat) -> Seq<Seq<char>> {
    names_fold(syms, n, 0, Seq::new(n, |i: int| Seq::<char>::empty()))
}

/// The grammar compiled from a parse, starting at the rule named `root_name`.
pub open spec fn compile(st: ParseState, root_name: Seq<char>) -> Result<GrammarView, ErrorView> {
    match lookup(st.syms, root_name) {
        None => Err(ErrorView::NoRootRule),
        Some(id) => if id >= st.rules.len() {
            Err(ErrorView::InvalidStartRule(id as usize))
        } else {
            match left_recursion(st.rules) {
                Some(i) => Err(ErrorView::LeftRecursion(i)),
                None => Ok(
                    GrammarView {
                        rules: st.rules,
                        root: id as usize,
                        names: names_of(st.syms, st.rules.len()),
                    },
                ),
            }
        },
    }
}

/// The grammar compiled from the GBNF text with UTF-8 bytes `src`.
pub open spec fn spec_grammar(src: Seq<u8>, root_name: Seq<char>) -> Result<GrammarView, ErrorView> {
    match spec_parse(src) {
        Err(e) => Err(e),
        Ok(st) => compile(st, root_name),
    }
}

/// Compiling starts at the rule that the root name is bound to in the symbol
/// table and keeps the parsed rules; it succeeds exactly when the name is bound
/// to an existing rule and no left recursion is found.
pub proof fn law_compile_root(st: ParseState, root_name: Seq<char>)
    ensures
        compile(st, root_name) matches Ok(g) ==> lookup(st.syms, root_name) == Some(g.root as u32)
            && g.root < st.rules.len() && g.rules == st.rules,
        compile(st, root_name) is Ok <==> (lookup(st.syms, root_name) matches Some(id) && id
            < st.rules.len() && left_recursion(st.rules) is None),
{
}

/// A grammar compiled from text starts at the rule its root name is bound to
/// by the parse, with the parsed rules.
pub proof fn law_grammar_root(src: Seq<u8>, root_name: Seq<char>)
    ensures
        spec_grammar(src, root_name) matches Ok(g) ==> spec_parse(src) matches Ok(st) && lookup(
            st.syms,
            root_name,
        ) == Some(g.root as u32) && g.rules == st.rules,
{
    if let Ok(st) = spec_parse(src) {
        law_compile_root(st, root_name);
    }
}

/// A compiled grammar ready for constrained decoding.
#[derive(Debug)]
pub struct Grammar {
    pub(crate) rules: Rules,
    pub(crate) root_index: usize,
    #[allow(dead_code)]
    pub(crate) symbol_names: Vec<String>,
}

/// Runtime grammar state for constrained decoding.
/// Created from a Grammar, advanced token-by-token.
#[derive(Debug)]
pub struct GrammarState {
    grammar: Grammar,
    stacks: Stacks,
}

/// What a matching state holds: its grammar and its current stacks.
pub struct StateView {
    pub grammar: GrammarView,
    pub stacks: Seq<StackV>,
}

impl View for Grammar {
    type V = GrammarView;

    closed spec fn view(&self) -> GrammarView {
        GrammarView {
            rules: rules_view(&self.rules),
            root: self.root_index,
            names: self.symbol_names@.map_values(|s: String| s@),
        }
    }
}

impl View for GrammarState {
    type V = StateView;

    closed spec fn view(&self) -> StateView {
        StateView { grammar: self.grammar@, stacks: stacks_view(&self.stacks) }
    }
}

/// A matching state over a well-formed grammar whose stacks name elements of
/// its rules, hold no stack twice, and are each empty or have a character
/// element on top.
pub open spec fn state_ok(s: StateView) -> bool {
    &&& grammar_ok(s.grammar)
    &&& all_valid(s.grammar.rules, s.stacks)
    &&& well_kept(s.grammar.rules, s.stacks)
}

/// A compiled grammar's rules are well-formed and its start rule exists.
pub open spec fn grammar_ok(g: GrammarView) -> bool {
    wf_rules(g.rules) && g.root < g.rules.len()
}

impl Grammar {
    #[verifier::type_invariant]
    closed spec fn inv(self) -> bool {
        grammar_ok(self@)
    }

    /// Parse a GBNF grammar string and compile it.
    pub fn new(grammar_text: &str) -> (r: Result<Self, GrammarError>)
        ensures
            match spec_grammar(grammar_text.spec_bytes(), "root"@) {
                Ok(gv) => r matches Ok(g) && g@ == gv,
                Err(e) => r matches Err(x) && x@ == e,
            },
            r matches Ok(g) ==> grammar_ok(g@) && left_recursion(g@.rules) is None && rules_shaped(g@.rules),
    {
        Self::with_root(grammar_text, "root")
    }

    /// Parse with a custom root rule name.
    pub fn with_root(grammar_text: &str, root_name: &str) -> (r: Result<Self, GrammarError>)
        ensures
            match spec_grammar(grammar_text.spec_bytes(), root_name@) {
                Ok(gv) => r matches Ok(g) && g@ == gv,
                Err(e) => r matches Err(x) && x@ == e,
            },
            r matches Ok(g) ==> grammar_ok(g@) && left_recursion(g@.rules) is None && rules_shaped(g@.rules),
    {
        let parsed = match parse(grammar_text) {
            Ok(p) => p,
            Err(e) => {
                return Err(e);
            },
        };
        let r = Self::from_parsed(parsed, root_name);
        proof {
            if let Ok(g) = &r {
                use_type_invariant(g);
            }
        }
        r
    }

    fn from_parsed(parsed: ParsedGrammar, root_name: &str) -> (r: Result<Self, GrammarError>)
        requires
            wf_rules(rules_view(&parsed.rules)),
        ensures
            match compile(
                ParseState { syms: parsed.symbol_ids@, rules: rules_view(&parsed.rules) },
                root_name@,
            ) {
                Ok(gv) => r matches Ok(g) && g@ == gv,
                Err(e) => r matches Err(x) && x@ == e,
            },
    {
        let ghost rv = rules_view(&parsed.rules);
        let ghost syms = parsed.symbol_ids@;
        let root_id = match parsed.symbol_ids.get(root_name) {
            Some(id) => *id,
            None => {
                return Err(GrammarError::NoRootRule);
            },
        };
        let root_index = root_id as usize;
        if root_index >= parsed.rules.len() {
            return Err(GrammarError::InvalidStartRule(root_index));
        }
        // Build name lookup (index → name) for diagnostics
        let n = parsed.rules.len();
        let mut symbol_names: Vec<String> = Vec::new();
        let mut k: usize = 0;
        while k < n
            invariant
                k <= n,
                symbol_names@.map_values(|s: String| s@) =~= Seq::new(k as nat, |i: int| Seq::<char>::empty()),
            decreases n - k,
        {
            let ghost before = symbol_names@;
            let e = String::new();
            symbol_names.push(e);
            assert(symbol_names@ == before.push(e));
            assert(symbol_names@.map_values(|s: String| s@) =~= before.map_values(|s: String| s@).push(
                Seq::<char>::empty(),
            ));
            k = k + 1;
        }
        let mut k: usize = 0;
        while k < parsed.symbol_ids.len()
            invariant
                k <= syms.len(),
                syms == parsed.symbol_ids@,
                n == rv.len(),
                symbol_names@.len() == n,
                names_of(syms, n as nat) == names_fold(
                    syms,
                    n as nat,
                    k as int,
                    symbol_names@.map_values(|s: String| s@),
                ),
            decreases syms.len() - k,
        {
            let (name, id) = parsed.symbol_ids.entry(k);
            let idx = id as usize;
            if idx < n {
                let ghost before = symbol_names@.map_values(|s: String| s@);
                symbol_names.set(idx, string_of_chars(name));
                assert(symbol_names@.map_values(|s: String| s@) =~= before.update(idx as int, syms[k as int].0));
            }
            k = k + 1;
        }
        match detect_left_recursion(&parsed.rules) {
            Ok(()) => {},
            Err(e) => {
                return Err(e);
            },
        }
        let g = Grammar { rules: parsed.rules, root_index, symbol_names };
        Ok(g)
    }

    /// Number of rules.
    pub fn num_rules(&self) -> (n: usize)
        ensures
            n == self@.rules.len(),
    {
        self.rules.len()
    }
}


fn copy_stacks(stacks: &Stacks) -> (r: Stacks)
    ensures
        stacks_view(&r) == stacks_view(stacks),
{
    let mut r: Stacks = Vec::new();
    let mut i: usize = 0;
    while i < stacks.len()
        invariant
            i <= stacks@.len(),
            stacks_view(&r) == stacks_view(stacks).subrange(0, i as int),
        decreases stacks@.len() - i,
    {
        let s = stack_prefix(&stacks[i], stacks[i].len());
        assert(stacks@[i as int]@.subrange(0, stacks@[i as int]@.len() as int) =~= stacks@[i as int]@);
        let ghost before = r@;
        let ghost vbefore = stacks_view(&r);
        assert(s@ == stacks_view(stacks)[i as int]);
        r.push(s);
        assert(r@ == before.push(s));
        assert(stacks_view(&r) =~= vbefore.push(stacks_view(stacks)[i as int]));
        i = i + 1;
        assert(stacks_view(&r) =~= stacks_view(stacks).subrange(0, i as int));
    }
    assert(stacks_view(stacks).subrange(0, stacks@.len() as int) =~= stacks_view(stacks));
    r
}

fn copy_names(names: &Vec<String>) -> (r: Vec<String>)
    ensures
        r@.map_values(|s: String| s@) == names@.map_values(|s: String| s@),
{
    let mut r: Vec<String> = Vec::new();
    let mut i: usize = 0;
    while i < names.len()
        invariant
            i <= names@.len(),
            r@.map_values(|s: String| s@) == names@.map_values(|s: String| s@).subrange(0, i as int),
        decreases names@.len() - i,
    {
        let ghost before = r@;
        let c = names[i].clone();
        r.push(c);
        assert(r@ == before.push(c));
        assert(r@.map_values(|s: String| s@) =~= before.map_values(|s: String| s@).push(c@));
        assert(names@.map_values(|s: String| s@)[i as int] == names@[i as int]@);
        assert(r@.map_values(|s: String| s@) =~= names@.map_values(|s: String| s@).subrange(0, i + 1));
        i = i + 1;
    }
    assert(names@.map_values(|s: String| s@).subrange(0, names@.len() as int) =~= names@.map_values(
        |s: String| s@,
    ));
    r
}

impl Clone for Grammar {
    fn clone(&self) -> (r: Self)
        ensures
            r@ == self@,
    {
        proof {
            use_type_invariant(self);
        }
        Grammar {
            rules: copy_rules(&self.rules),
            root_index: self.root_index,
            symbol_names: copy_names(&self.symbol_names),
        }
    }
}

impl Clone for GrammarState {
    fn clone(&self) -> (r: Self)
        ensures
            r@ == self@,
    {
        proof {
            use_type_invariant(self);
        }
        GrammarState { grammar: self.grammar.clone(), stacks: copy_stacks(&self.stacks) }
    }
}

fn rejected(cp: u32, token_text: &str) -> (e: GrammarError)
    ensures
        e@ == ErrorView::InvalidState(rejected_message(cp, token_text@)),
{
    let mut s = String::new();
    push_str(&mut s, "no valid stacks after accepting character U+");
    push_hex4(&mut s, cp);
    push_str(&mut s, " in '");
    push_str(&mut s, token_text);
    push_str(&mut s, "'");
    GrammarError::InvalidState(s)
}

impl GrammarState {
    #[verifier::type_invariant]
    closed spec fn inv(self) -> bool {
        state_ok(self@)
    }

    /// Initialize from a compiled grammar. Expands the root rule into initial stacks.
    pub fn new(grammar: Grammar) -> (r: Result<Self, GrammarError>)
        ensures
            r matches Ok(s) && s@.grammar == grammar@ && s@.stacks == init_loop(
                grammar@.rules,
                grammar@.root,
                0,
                Seq::empty(),
            ),
            r matches Ok(s) ==> state_ok(s@),
    {
        proof {
            use_type_invariant(&grammar);
            lemma_init_loop_valid(grammar@.rules, grammar@.root, 0, Seq::empty());
            law_initial_stacks_kept(grammar@.rules, grammar@.root);
        }
        let stacks = match init_stacks(&grammar.rules, grammar.root_index) {
            Ok(s) => s,
            Err(e) => {
                return Err(e);
            },
        };
        Ok(GrammarState { grammar, stacks })
    }

    /// Check if the grammar is in an accepting state (at least one empty stack).
    pub fn is_accepting(&self) -> (b: bool)
        ensures
            b == accepting(self@.stacks),
    {
        let mut i: usize = 0;
        while i < self.stacks.len()
            invariant
                i <= self@.stacks.len(),
                self@.stacks == stacks_view(&self.stacks),
                forall|j: int| 0 <= j < i ==> self@.stacks[j].len() != 0,
            decreases self@.stacks.len() - i,
        {
            if self.stacks[i].len() == 0 {
                assert(self@.stacks[i as int].len() == 0);
                return true;
            }
            i = i + 1;
        }
        false
    }

    /// Check if the grammar has any valid continuation.
    pub fn is_valid(&self) -> (b: bool)
        ensures
            b == (self@.stacks.len() > 0),
    {
        self.stacks.len() != 0
    }

    /// Get a bitmask of which tokens are allowed at this position.
    /// `vocab[i]` is the string representation of token ID `i`.
    /// Returns a Vec<bool> of length vocab.len().
    pub fn allowed_tokens(&self, vocab: &[&str]) -> (allowed: Vec<bool>)
        ensures
            allowed@.len() == vocab@.len(),
            forall|i: int|
                0 <= i < vocab@.len() ==> #[trigger] allowed@[i] == token_allowed(
                    self@.grammar.rules,
                    self@.stacks,
                    vocab@[i]@,
                ),
    {
        let mut allowed: Vec<bool> = Vec::new();
        // If any stack is empty, the grammar can accept EOG
        let allow_eog = self.is_accepting();
        let mut i: usize = 0;
        while i < vocab.len()
            invariant
                i <= vocab@.len(),
                allowed@.len() == i,
                allow_eog == accepting(self@.stacks),
                forall|k: int|
                    0 <= k < i ==> #[trigger] allowed@[k] == token_allowed(
                        self@.grammar.rules,
                        self@.stacks,
                        vocab@[k]@,
                    ),
            decreases vocab@.len() - i,
        {
            let token_str: &str = vocab[i];
            if token_str.is_empty() {
                // Empty tokens are allowed only if we're in accepting state
                allowed.push(allow_eog);
            } else {
                let codepoints = decode_utf8_string(token_str);
                // codepoints has trailing 0; actual chars are [0..len-1]
                let char_count = codepoints.len() - 1;
                assert(codepoints@.take(char_count as int) =~= code_points(token_str@));
                if char_count == 0 {
                    allowed.push(allow_eog);
                } else {
                    // Check if this token can be consumed by any current stack
                    allowed.push(self.can_accept_token(&codepoints, char_count));
                }
            }
            i = i + 1;
        }
        allowed
    }

    /// Check if a specific token string can be consumed from the current state.
    fn can_accept_token(&self, codepoints: &Vec<u32>, n: usize) -> (b: bool)
        requires
            n <= codepoints@.len(),
        ensures
            b == any_accepts(self@.grammar.rules, self@.stacks, 0, codepoints@.take(n as int)),
    {
        proof {
            use_type_invariant(self);
        }
        let ghost cps = codepoints@.take(n as int);
        let mut i: usize = 0;
        // Try every current stack
        while i < self.stacks.len()
            invariant
                i <= self@.stacks.len(),
                n <= codepoints@.len(),
                cps == codepoints@.take(n as int),
                self@.stacks == stacks_view(&self.stacks),
                grammar_ok(self@.grammar),
                all_valid(self@.grammar.rules, self@.stacks),
                any_accepts(self@.grammar.rules, self@.stacks, 0, cps) == any_accepts(
                    self@.grammar.rules,
                    self@.stacks,
                    i as int,
                    cps,
                ),
            decreases self@.stacks.len() - i,
        {
            assert(self@.stacks[i as int] == self.stacks@[i as int]@);
            if self.can_accept_codepoints_from_stack(&self.stacks[i], codepoints, 0, n) {
                assert(codepoints@.subrange(0, n as int) =~= cps);
                return true;
            }
            assert(codepoints@.subrange(0, n as int) =~= cps);
            i = i + 1;
        }
        false
    }

    /// Check if the code points `from..to` can be consumed starting from a single stack.
    fn can_accept_codepoints_from_stack(&self, stack: &Stack, codepoints: &Vec<u32>, from: usize, to: usize) -> (b: bool)
        requires
            from <= to <= codepoints@.len(),
            grammar_ok(self@.grammar),
            stack_valid(self@.grammar.rules, stack@),
        ensures
            b == can_accept(self@.grammar.rules, stack@, codepoints@.subrange(from as int, to as int)),
        decreases to - from,
    {
        let ghost rv = self@.grammar.rules;
        let ghost cps = codepoints@.subrange(from as int, to as int);
        assert(rv == rules_view(&self.grammar.rules));
        if from == to {
            return true;
        }
        if stack.len() == 0 {
            // Stack is completed but we still have chars to consume
            return false;
        }
        let pos = stack[stack.len() - 1];
        assert(stack@[stack@.len() - 1] == stack@.last());
        assert(rv[pos.0 as int] == self.grammar.rules@[pos.0 as int]@);
        let elem = self.grammar.rules[pos.0][pos.1];
        // Must be at a char element
        match elem.etype {
            ElementType::Char | ElementType::CharNot | ElementType::CharAny => {},
            _ => {
                return false;
            },
        }
        let (matched, after_pos) = match_char(&self.grammar.rules, pos, codepoints[from]);
        if !matched {
            return false;
        }
        // Build new stack after consuming this character
        let mut new_stack = stack_prefix(stack, stack.len() - 1);
        assert(new_stack@ == stack@.drop_last());
        if !self.grammar.rules[after_pos.0][after_pos.1].is_end_of_sequence() {
            new_stack.push(after_pos);
        }
        assert(new_stack@ == consumed(rv, stack@, cps[0]));
        assert(stack_valid(rv, new_stack@)) by {
            assert forall|k: int| 0 <= k < new_stack@.len() implies (#[trigger] new_stack@[k]).0
                < rv.len() && new_stack@[k].1 < rv[new_stack@[k].0 as int].len() by {
                if k < stack@.len() - 1 {
                    assert(new_stack@[k] == stack@[k]);
                }
            }
        }
        // Expand the new stack (resolve rule refs)
        let mut expanded_stacks: Stacks = Vec::new();
        assert(stacks_view(&expanded_stacks) =~= Seq::<StackV>::empty());
        advance_stack(&self.grammar.rules, &new_stack, &mut expanded_stacks, 0);
        proof {
            lemma_advance_valid(rv, new_stack@, Seq::empty(), 0);
        }
        // Recurse for remaining codepoints
        if from + 1 == to {
            return true;
        }
        let ghost rest = codepoints@.subrange(from + 1, to as int);
        assert(rest =~= cps.drop_first());
        let ghost ev = stacks_view(&expanded_stacks);
        assert(can_accept(rv, stack@, cps) == any_accepts(rv, ev, 0, rest));
        let mut i: usize = 0;
        while i < expanded_stacks.len()
            invariant
                i <= ev.len(),
                ev == stacks_view(&expanded_stacks),
                from + 1 < to <= codepoints@.len(),
                grammar_ok(self@.grammar),
                rv == self@.grammar.rules,
                all_valid(rv, ev),
                any_accepts(rv, ev, 0, rest) == any_accepts(rv, ev, i as int, rest),
                rest == codepoints@.subrange(from + 1, to as int),
                cps == codepoints@.subrange(from as int, to as int),
                can_accept(rv, stack@, cps) == any_accepts(rv, ev, 0, rest),
            decreases ev.len() - i,
        {
            assert(ev[i as int] == expanded_stacks@[i as int]@);
            if self.can_accept_codepoints_from_stack(&expanded_stacks[i], codepoints, from + 1, to) {
                return true;
            }
            i = i + 1;
        }
        false
    }

    /// Accept a token's text and advance the grammar state.
    /// Call after sampling, with the chosen token's string.
    pub fn accept_token(&mut self, token_text: &str) -> (r: Result<(), GrammarError>)
        ensures
            final(self)@.grammar == old(self)@.grammar,
            match accept_seq(old(self)@.grammar.rules, old(self)@.stacks, code_points(token_text@)) {
                Ok(ns) => r is Ok && final(self)@.stacks == ns,
                Err(cp) => r matches Err(x) && x@ == ErrorView::InvalidState(
                    rejected_message(cp, token_text@),
                ) && final(self)@ == old(self)@,
            },
            state_ok(final(self)@),
    {
        proof {
            use_type_invariant(&*self);
            use_type_invariant(&self.grammar);
        }
        let ghost rv = self@.grammar.rules;
        let ghost cps = code_points(token_text@);
        let codepoints = decode_utf8_string(token_text);
        // chars are [0..len-1], last is terminating 0
        let n = codepoints.len() - 1;
        assert(codepoints@.take(n as int) =~= cps);
        let mut current_stacks = copy_stacks(&self.stacks);
        assert(cps.skip(0) =~= cps);
        let mut k: usize = 0;
        while k < n
            invariant
                k <= n,
                n == cps.len(),
                codepoints@.len() == n + 1,
                cps == code_points(token_text@),
                rv == old(self)@.grammar.rules,
                codepoints@.take(n as int) == cps,
                rv == rules_view(&self.grammar.rules),
                grammar_ok(self@.grammar),
                all_valid(rv, stacks_view(&current_stacks)),
                accept_seq(rv, old(self)@.stacks, cps) == accept_seq(
                    rv,
                    stacks_view(&current_stacks),
                    cps.skip(k as int),
                ),
                self@ == old(self)@,
            decreases n - k,
        {
            let cp = codepoints[k];
            assert(cps[k as int] == cp);
            let ghost cur = stacks_view(&current_stacks);
            let mut next_stacks: Stacks = Vec::new();
            assert(stacks_view(&next_stacks) =~= Seq::<StackV>::empty());
            let mut i: usize = 0;
            while i < current_stacks.len()
                invariant
                    i <= cur.len(),
                    cur == stacks_view(&current_stacks),
                    rv == rules_view(&self.grammar.rules),
                    grammar_ok(self@.grammar),
                    all_valid(rv, cur),
                    all_valid(rv, stacks_view(&next_stacks)),
                    step(rv, cur, cp) == step_from(rv, cur, i as int, cp, stacks_view(&next_stacks)),
                decreases cur.len() - i,
            {
                assert(cur[i as int] == current_stacks@[i as int]@);
                proof {
                    lemma_accept_char_valid(rv, cur[i as int], cp, stacks_view(&next_stacks));
                }
                accept_char(&self.grammar.rules, &current_stacks[i], cp, &mut next_stacks);
                i = i + 1;
            }
            assert(step(rv, cur, cp) == stacks_view(&next_stacks));
            current_stacks = next_stacks;
            assert(cps.skip(k as int).drop_first() =~= cps.skip(k + 1));
            assert(cps.skip(k as int)[0] == cp);
            if current_stacks.len() == 0 {
                assert(stacks_view(&current_stacks).len() == 0);
                assert(accept_seq(rv, cur, cps.skip(k as int)) == Err::<Seq<StackV>, u32>(cp));
                proof {
                    use_type_invariant(&*self);
                }
                return Err(rejected(cp, token_text));
            }
            k = k + 1;
        }
        assert(cps.skip(n as int) =~= Seq::<u32>::empty());
        proof {
            law_accept_seq_kept(rv, old(self)@.stacks, cps);
        }
        self.stacks = current_stacks;
        Ok(())
    }

    /// Reset to initial state.
    pub fn reset(&mut self) -> (r: Result<(), GrammarError>)
        ensures
            r is Ok,
            final(self)@.grammar == old(self)@.grammar,
            final(self)@.stacks == init_loop(old(self)@.grammar.rules, old(self)@.grammar.root, 0, Seq::empty()),
            state_ok(final(self)@),
    {
        proof {
            use_type_invariant(&*self);
            use_type_invariant(&self.grammar);
            lemma_init_loop_valid(self@.grammar.rules, self@.grammar.root, 0, Seq::empty());
            law_initial_stacks_kept(self@.grammar.rules, self@.grammar.root);
        }
        let stacks = match init_stacks(&self.grammar.rules, self.grammar.root_index) {
            Ok(s) => s,
            Err(e) => {
                return Err(e);
            },
        };
        self.stacks = stacks;
        Ok(())
    }

    /// Current number of active stacks (for diagnostics).
    pub fn num_stacks(&self) -> (n: usize)
        ensures
            n == self@.stacks.len(),
    {
        self.stacks.len()
    }

    /// The current stacks.
    pub fn stacks(&self) -> (s: &Stacks)
        ensures
            stacks_view(s) == self@.stacks,
    {
        &self.stacks
    }
}

} // verus!
