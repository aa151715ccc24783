use vstd::prelude::*;
use vstd::string::*;

use crate::value::Value;

verus! {

/// A check that the library's user writes: it passes, or fails with a message.
pub trait Check {
    fn check(&self, value: &Value) -> Result<(), String>;
}

/// A check that always passes, for validators that use no custom rule.
pub struct NoCheck;

impl Check for NoCheck {
    fn check(&self, _value: &Value) -> Result<(), String> {
        Ok(())
    }
}

/// One named validation rule.
pub enum Rule<C> {
    /// Fails on `Unit` and on the empty text.
    Required,
    /// Passes on text that starts with the given prefix.
    StartWith(String),
    /// A check of the user's, under the given name.
    Custom(String, C),
}

/// An ordered chain of rules applied to the same value.
pub struct RuleList<C> {
    pub rules: Vec<Rule<C>>,
}

/// What a rule's outcome is made of: `None` for a pass, `Some(message)` for a failure.
pub type Verdict = Option<Seq<char>>;

pub open spec fn rule_name<C>(r: Rule<C>) -> Seq<char> {
    match r {
        Rule::Required => "required"@,
        Rule::StartWith(_) => "start_with"@,
        Rule::Custom(name, _) => name@,
    }
}

pub open spec fn required_message() -> Seq<char> {
    "this field is required"@
}

pub open spec fn start_with_message() -> Seq<char> {
    "this field must be start with {}"@
}

pub open spec fn is_prefix(p: Seq<char>, s: Seq<char>) -> bool {
    p.len() <= s.len() && s.subrange(0, p.len() as int) == p
}

/// The outcome of a built-in rule on `v` (a custom rule's is the user's).
pub open spec fn builtin_verdict<C>(r: Rule<C>, v: Value) -> Verdict {
    match r {
        Rule::Required => if v is Unit || (v is Str && v->Str_0@.len() == 0) {
            Some(required_message())
        } else {
            None
        },
        Rule::StartWith(p) => if v is Str && is_prefix(p@, v->Str_0@) {
            None
        } else {
            Some(start_with_message())
        },
        Rule::Custom(_, _) => None,
    }
}

/// The verdicts `vs` are possible outcomes of `rules` on `v`: exact for
/// built-in rules, any outcome for custom ones.
pub open spec fn fits<C>(rules: Seq<Rule<C>>, v: Value, vs: Seq<Verdict>) -> bool {
    &&& vs.len() == rules.len()
    &&& forall|i: int|
        0 <= i < rules.len() && !(#[trigger] rules[i] is Custom) ==> vs[i] == builtin_verdict(
            rules[i],
            v,
        )
}

/// The (rule name, message) pair of each failing rule, in rule order.
pub open spec fn failures<C>(rules: Seq<Rule<C>>, vs: Seq<Verdict>) -> Seq<(Seq<char>, Seq<char>)>
    decreases rules.len(),
{
    if rules.len() == 0 || vs.len() == 0 {
        Seq::empty()
    } else {
        let prev = failures(rules.drop_last(), vs.drop_last());
        match vs.last() {
            Some(m) => prev.push((rule_name(rules.last()), m)),
            None => prev,
        }
    }
}

/// How many of the verdicts are failures.
pub open spec fn fail_count(vs: Seq<Verdict>) -> nat
    decreases vs.len(),
{
    if vs.len() == 0 {
        0
    } else {
        fail_count(vs.drop_last()) + if vs.last() is Some {
            1nat
        } else {
            0nat
        }
    }
}

pub open spec fn pairs_view(s: Seq<(String, String)>) -> Seq<(Seq<char>, Seq<char>)> {
    s.map_values(|p: (String, String)| (p.0@, p.1@))
}

pub open spec fn names_view(s: Seq<String>) -> Seq<Seq<char>> {
    s.map_values(|n: String| n@)
}

/// Running a chain whose rules fail `m` times gives exactly `m` failures,
/// one per failing rule, in the order the rules were registered.
pub proof fn lemma_failure_count<C>(rules: Seq<Rule<C>>, vs: Seq<Verdict>)
    requires
        vs.len() == rules.len(),
    ensures
        failures(rules, vs).len() == fail_count(vs),
    decreases rules.len(),
{
    if rules.len() > 0 {
        lemma_failure_count(rules.drop_last(), vs.drop_last());
    }
}

/// Whether `p` is a prefix of `s`.
fn starts_with(s: &str, p: &str) -> (r: bool)
    ensures
        r == is_prefix(p@, s@),
{
    let n = s.unicode_len();
    let m = p.unicode_len();
    if m > n {
        return false;
    }
    let mut i: usize = 0;
    while i < m
        invariant
            i <= m <= n,
            n == s@.len(),
            m == p@.len(),
            forall|k: int| 0 <= k < i ==> s@[k] == p@[k],
        decreases m - i,
    {
        if s.get_char(i) != p.get_char(i) {
            assert(s@.subrange(0, m as int)[i as int] != p@[i as int]);
            return false;
        }
        i = i + 1;
    }
    assert(s@.subrange(0, m as int) =~= p@);
    true
}

impl<C: Check> Rule<C> {
    /// A custom rule under the name `custom`.
    pub fn custom(c: C) -> (r: Rule<C>)
        ensures
            r is Custom,
            rule_name(r) == "custom"@,
    {
        Rule::Custom(String::from_str("custom"), c)
    }

    /// This rule followed by `other`.
    pub fn and(self, other: Rule<C>) -> (r: RuleList<C>)
        ensures
            r.rules@ == seq![self, other],
    {
        let mut rules: Vec<Rule<C>> = Vec::new();
        rules.push(self);
        rules.push(other);
        assert(rules@ =~= seq![self, other]);
        RuleList { rules }
    }

    /// A chain holding this rule alone.
    pub fn into_list(self) -> (r: RuleList<C>)
        ensures
            r.rules@ == seq![self],
    {
        let mut rules: Vec<Rule<C>> = Vec::new();
        rules.push(self);
        assert(rules@ =~= seq![self]);
        RuleList { rules }
    }

    /// The stable name used in message keys.
    pub fn name(&self) -> (r: String)
        ensures
            r@ == rule_name(*self),
    {
        match self {
            Rule::Required => String::from_str("required"),
            Rule::StartWith(_) => String::from_str("start_with"),
            Rule::Custom(name, _) => name.clone(),
        }
    }

    /// Evaluates this rule on `v`: `None` for a pass, the message for a failure.
    pub fn verdict(&self, v: &Value) -> (r: Option<String>)
        ensures
            !(*self is Custom) ==> match r {
                Some(m) => builtin_verdict(*self, *v) == Some(m@),
                None => builtin_verdict(*self, *v) == None::<Seq<char>>,
            },
    {
        match self {
            Rule::Required => {
                let missing = match v {
                    Value::Unit => true,
                    Value::Str(s) => s.as_str().unicode_len() == 0,
                    _ => false,
                };
                if missing {
                    Some(String::from_str("this field is required"))
                } else {
                    None
                }
            },
            Rule::StartWith(p) => {
                let ok = match v {
                    Value::Str(s) => starts_with(s.as_str(), p.as_str()),
                    _ => false,
                };
                if ok {
                    None
                } else {
                    Some(String::from_str("this field must be start with {}"))
                }
            },
            Rule::Custom(_, c) => match c.check(v) {
                Ok(()) => None,
                Err(m) => Some(m),
            },
        }
    }
}

pub open spec fn verdict_view(o: Option<String>) -> Verdict {
    match o {
        Some(m) => Some(m@),
        None => None,
    }
}

impl<C: Check> RuleList<C> {
    /// An empty chain.
    pub fn new() -> (r: RuleList<C>)
        ensures
            r.rules@.len() == 0,
    {
        RuleList { rules: Vec::new() }
    }

    /// This chain followed by `other`.
    pub fn and(self, other: Rule<C>) -> (r: RuleList<C>)
        ensures
            r.rules@ == self.rules@.push(other),
    {
        let mut rules = self.rules;
        rules.push(other);
        RuleList { rules }
    }

    /// The names of the rules, in order.
    pub fn get_rules_name(&self) -> (r: Vec<String>)
        ensures
            names_view(r@) == self.rules@.map_values(|x: Rule<C>| rule_name(x)),
    {
        let mut out: Vec<String> = Vec::new();
        let mut i: usize = 0;
        while i < self.rules.len()
            invariant
                i <= self.rules@.len(),
                names_view(out@) == self.rules@.subrange(0, i as int).map_values(
                    |x: Rule<C>| rule_name(x),
                ),
            decreases self.rules@.len() - i,
        {
            let n = self.rules[i].name();
            let ghost before = out@;
            out.push(n);
            assert(names_view(out@) =~= names_view(before).push(n@));
            assert(self.rules@.subrange(0, i + 1) =~= self.rules@.subrange(0, i as int).push(
                self.rules@[i as int],
            ));
            assert(names_view(out@) =~= self.rules@.subrange(0, i + 1).map_values(
                |x: Rule<C>| rule_name(x),
            ));
            i = i + 1;
        }
        assert(self.rules@.subrange(0, i as int) =~= self.rules@);
        out
    }

    /// Runs every rule on `v`, in order, and collects the name and message
    /// of each one that fails.
    pub fn call(&self, v: &Value) -> (r: Vec<(String, String)>)
        ensures
            exists|vs: Seq<Verdict>|
                fits(self.rules@, *v, vs) && pairs_view(r@) == failures(self.rules@, vs),
    {
        let mut out: Vec<(String, String)> = Vec::new();
        let ghost mut vs: Seq<Verdict> = Seq::empty();
        let mut i: usize = 0;
        while i < self.rules.len()
            invariant
                i <= self.rules@.len(),
                fits(self.rules@.subrange(0, i as int), *v, vs),
                pairs_view(out@) == failures(self.rules@.subrange(0, i as int), vs),
            decreases self.rules@.len() - i,
        {
            let rule = &self.rules[i];
            let o = rule.verdict(v);
            let ghost prefix = self.rules@.subrange(0, i + 1);
            assert(prefix.drop_last() =~= self.rules@.subrange(0, i as int));
            let ghost old_vs = vs;
            proof {
                vs = vs.push(verdict_view(o));
                assert(vs.drop_last() =~= old_vs);
            }
            match o {
                Some(m) => {
                    let n = rule.name();
                    let ghost before = out@;
                    out.push((n, m));
                    assert(pairs_view(out@) =~= pairs_view(before).push((n@, m@)));
                },
                None => {},
            }
            i = i + 1;
        }
        assert(self.rules@.subrange(0, i as int) =~= self.rules@);
        out
    }
}

} // verus!
