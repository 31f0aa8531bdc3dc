use vstd::prelude::*;

verus! {

/// Type tag for a grammar element.
#[derive(Debug, Clone, Copy, PartialEq, Eq, Structural)]
pub enum ElementType {
    /// End of rule definition
    End,
    /// Start of alternate definition for rule
    Alt,
    /// Non-terminal: reference to another rule (value = rule index)
    RuleRef,
    /// Terminal: character/codepoint (value = unicode codepoint)
    Char,
    /// Inverse char(s): [^a], [^a-b], [^abc]
    CharNot,
    /// Modifies preceding Char/CharAlt to be inclusive range upper bound
    CharRngUpper,
    /// Adds alternate char to match: [ab], [a-zA]
    CharAlt,
    /// Any character (.)
    CharAny,
}

/// A single element in a grammar rule's production.
#[derive(Debug, Clone, Copy, PartialEq, Eq, Structural)]
pub struct Element {
    pub etype: ElementType,
    pub value: u32,
}

/// A rule is a sequence of elements, terminated by End, with Alt separating alternatives.
pub type Rule = Vec<Element>;

/// All rules in a grammar.
pub type Rules = Vec<Rule>;

/// A position within the grammar: (rule_index, element_index).
pub type Pos = (usize, usize);

/// A parse stack: a list of positions still to be matched; the last one is the top.
pub type Stack = Vec<Pos>;

/// Multiple possible parse stacks (nondeterministic).
pub type Stacks = Vec<Stack>;

impl Element {
    /// Character-class elements: Char, CharNot, CharAlt, CharRngUpper, CharAny.
    pub open spec fn spec_is_char_element(self) -> bool {
        match self.etype {
            ElementType::Char | ElementType::CharNot | ElementType::CharAlt
            | ElementType::CharRngUpper | ElementType::CharAny => true,
            _ => false,
        }
    }

    /// End or Alt: the end of one alternative.
    pub open spec fn spec_is_end_of_sequence(self) -> bool {
        self.etype == ElementType::End || self.etype == ElementType::Alt
    }

    pub fn new(etype: ElementType, value: u32) -> (e: Self)
        ensures
            e.etype == etype,
            e.value == value,
    {
        Element { etype, value }
    }

    pub fn end() -> (e: Self)
        ensures
            e == (Element { etype: ElementType::End, value: 0 }),
    {
        Self::new(ElementType::End, 0)
    }

    pub fn alt() -> (e: Self)
        ensures
            e == (Element { etype: ElementType::Alt, value: 0 }),
    {
        Self::new(ElementType::Alt, 0)
    }

    pub fn rule_ref(rule_id: u32) -> (e: Self)
        ensures
            e == (Element { etype: ElementType::RuleRef, value: rule_id }),
    {
        Self::new(ElementType::RuleRef, rule_id)
    }

    pub fn char_(cp: u32) -> (e: Self)
        ensures
            e == (Element { etype: ElementType::Char, value: cp }),
    {
        Self::new(ElementType::Char, cp)
    }

    pub fn char_not(cp: u32) -> (e: Self)
        ensures
            e == (Element { etype: ElementType::CharNot, value: cp }),
    {
        Self::new(ElementType::CharNot, cp)
    }

    pub fn char_rng_upper(cp: u32) -> (e: Self)
        ensures
            e == (Element { etype: ElementType::CharRngUpper, value: cp }),
    {
        Self::new(ElementType::CharRngUpper, cp)
    }

    pub fn char_alt(cp: u32) -> (e: Self)
        ensures
            e == (Element { etype: ElementType::CharAlt, value: cp }),
    {
        Self::new(ElementType::CharAlt, cp)
    }

    pub fn char_any() -> (e: Self)
        ensures
            e == (Element { etype: ElementType::CharAny, value: 0 }),
    {
        Self::new(ElementType::CharAny, 0)
    }

    /// Is this a character-class element?
    pub fn is_char_element(&self) -> (b: bool)
        ensures
            b == self.spec_is_char_element(),
    {
        match self.etype {
            ElementType::Char | ElementType::CharNot | ElementType::CharAlt
            | ElementType::CharRngUpper | ElementType::CharAny => true,
            _ => false,
        }
    }

    /// Is this an end-of-sequence marker (End or Alt)?
    pub fn is_end_of_sequence(&self) -> (b: bool)
        ensures
            b == self.spec_is_end_of_sequence(),
    {
        match self.etype {
            ElementType::End | ElementType::Alt => true,
            _ => false,
        }
    }
}

/// A well-formed rule set: every rule is non-empty and ends with `End`, every
/// rule reference names an existing rule, and all indices fit in `usize`.
pub open spec fn wf_rules(rules: Seq<Seq<Element>>) -> bool {
    &&& rules.len() <= usize::MAX
    &&& forall|i: int| 0 <= i < rules.len() ==> #[trigger] rules[i].len() <= usize::MAX
    &&& forall|i: int| 0 <= i < rules.len() ==> #[trigger] rules[i].len() > 0
    &&& forall|i: int|
        0 <= i < rules.len() ==> (#[trigger] rules[i]).last() == (Element {
            etype: ElementType::End,
            value: 0,
        })
    &&& forall|i: int, j: int|
        0 <= i < rules.len() && 0 <= j < rules[i].len() && (#[trigger] rules[i][j]).etype
            == ElementType::RuleRef ==> rules[i][j].value < rules.len()
}

} // verus!
