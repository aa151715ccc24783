use vstd::prelude::*;

pub use crate::field_name::FieldName;
use crate::field_name::{
    clone_path, parse, parse_message, parse_message_spec, parse_spec, path_view, same_path,
    ParseError, Segment,
};
use crate::rule::{failures, fits, names_view, pairs_view, rule_name, Check, Rule, RuleList, Verdict};
use crate::value::{locate, nav_message, resolve, Value};

verus! {

/// Why a registration was refused.
#[derive(PartialEq, Eq, Debug, Clone, Copy, Structural)]
pub enum ConfigError {
    /// A path expression or message key does not parse.
    Parse(ParseError),
    /// A message key names a path that has no rules.
    UnknownPath,
    /// A message key names a rule that the path's rules do not hold.
    UnknownRule,
}

/// A registered path and its rules, as mathematical values.
pub type EntryView<C> = (Seq<Segment>, Seq<Rule<C>>);

/// A message override: the path, the rule name and the text.
pub type OverrideView = (Seq<Segment>, Seq<char>, Seq<char>);

/// Rules per field path, and message overrides per (path, rule name).
pub struct Validator<C> {
    rules: Vec<(Vec<FieldName>, RuleList<C>)>,
    message: Vec<(Vec<FieldName>, String, String)>,
}

/// The first entry registered for path `p`.
pub open spec fn find_path<C>(es: Seq<EntryView<C>>, p: Seq<Segment>) -> Option<int>
    decreases es.len(),
{
    if es.len() == 0 {
        None
    } else if es[0].0 == p {
        Some(0)
    } else {
        match find_path(es.drop_first(), p) {
            Some(i) => Some(i + 1),
            None => None,
        }
    }
}

/// The first override for rule `n` on path `p`.
pub open spec fn find_override(ov: Seq<OverrideView>, p: Seq<Segment>, n: Seq<char>) -> Option<int>
    decreases ov.len(),
{
    if ov.len() == 0 {
        None
    } else if ov[0].0 == p && ov[0].1 == n {
        Some(0)
    } else {
        match find_override(ov.drop_first(), p, n) {
            Some(i) => Some(i + 1),
            None => None,
        }
    }
}

/// The entries after registering `rules` for `p`: an earlier entry for `p`
/// is replaced in place, else the entry is added at the end.
pub open spec fn set_rules<C>(es: Seq<EntryView<C>>, p: Seq<Segment>, rules: Seq<Rule<C>>) -> Seq<
    EntryView<C>,
> {
    match find_path(es, p) {
        Some(i) => es.update(i, (p, rules)),
        None => es.push((p, rules)),
    }
}

/// The overrides after setting text `t` for rule `n` on path `p`.
pub open spec fn set_override(
    ov: Seq<OverrideView>,
    p: Seq<Segment>,
    n: Seq<char>,
    t: Seq<char>,
) -> Seq<OverrideView> {
    match find_override(ov, p, n) {
        Some(i) => ov.update(i, (p, n, t)),
        None => ov.push((p, n, t)),
    }
}

pub open spec fn rule_names<C>(rules: Seq<Rule<C>>) -> Seq<Seq<char>> {
    rules.map_values(|r: Rule<C>| rule_name(r))
}

/// Whether an override for rule `n` on path `p` would be accepted.
pub open spec fn check_key<C>(es: Seq<EntryView<C>>, p: Seq<Segment>, n: Seq<char>) -> Result<
    (),
    ConfigError,
> {
    match find_path(es, p) {
        None => Err(ConfigError::UnknownPath),
        Some(i) => if rule_names(es[i].1).contains(n) {
            Ok(())
        } else {
            Err(ConfigError::UnknownRule)
        },
    }
}

/// The overrides that the message keys and texts `keys` give, or the
/// error of the first bad key.
pub open spec fn message_spec<C>(es: Seq<EntryView<C>>, keys: Seq<(Seq<char>, Seq<char>)>) -> Result<
    Seq<OverrideView>,
    ConfigError,
>
    decreases keys.len(),
{
    if keys.len() == 0 {
        Ok(Seq::empty())
    } else {
        match message_spec(es, keys.drop_last()) {
            Err(e) => Err(e),
            Ok(ov) => match parse_message_spec(keys.last().0) {
                Err(e) => Err(ConfigError::Parse(e)),
                Ok((p, n)) => match check_key(es, p, n) {
                    Err(e) => Err(e),
                    Ok(()) => Ok(set_override(ov, p, n, keys.last().1)),
                },
            },
        }
    }
}

/// No two entries share a path, and no two overrides share a key.
pub open spec fn unique_keys<C>(es: Seq<EntryView<C>>, ov: Seq<OverrideView>) -> bool {
    &&& forall|i: int, j: int| 0 <= i < j < es.len() ==> es[i].0 != es[j].0
    &&& forall|i: int, j: int|
        0 <= i < j < ov.len() ==> !(ov[i].0 == ov[j].0 && ov[i].1 == ov[j].1)
}

proof fn lemma_find_path<C>(es: Seq<EntryView<C>>, p: Seq<Segment>)
    ensures
        match find_path(es, p) {
            Some(i) => 0 <= i < es.len() && es[i].0 == p && forall|j: int|
                0 <= j < i ==> es[j].0 != p,
            None => forall|j: int| 0 <= j < es.len() ==> es[j].0 != p,
        },
    decreases es.len(),
{
    if es.len() > 0 {
        lemma_find_path(es.drop_first(), p);
        if es[0].0 != p {
            assert forall|j: int| 1 <= j < es.len() implies es[j].0 == es.drop_first()[j - 1].0 by {}
        }
    }
}

proof fn lemma_find_override(ov: Seq<OverrideView>, p: Seq<Segment>, n: Seq<char>)
    ensures
        match find_override(ov, p, n) {
            Some(i) => 0 <= i < ov.len() && ov[i].0 == p && ov[i].1 == n && forall|j: int|
                0 <= j < i ==> !(ov[j].0 == p && ov[j].1 == n),
            None => forall|j: int| 0 <= j < ov.len() ==> !(ov[j].0 == p && ov[j].1 == n),
        },
    decreases ov.len(),
{
    if ov.len() > 0 {
        lemma_find_override(ov.drop_first(), p, n);
        if !(ov[0].0 == p && ov[0].1 == n) {
            assert forall|j: int| 1 <= j < ov.len() implies ov[j] == ov.drop_first()[j - 1] by {}
        }
    }
}

/// `find_path` is the first index holding `p`.
proof fn lemma_find_path_at<C>(es: Seq<EntryView<C>>, p: Seq<Segment>, i: int)
    requires
        0 <= i <= es.len(),
        forall|j: int| 0 <= j < i ==> es[j].0 != p,
        i < es.len() ==> es[i].0 == p,
    ensures
        find_path(es, p) == (if i < es.len() {
            Some(i)
        } else {
            None::<int>
        }),
{
    lemma_find_path(es, p);
}

/// `find_override` is the first index holding the key.
proof fn lemma_find_override_at(ov: Seq<OverrideView>, p: Seq<Segment>, n: Seq<char>, i: int)
    requires
        0 <= i <= ov.len(),
        forall|j: int| 0 <= j < i ==> !(ov[j].0 == p && ov[j].1 == n),
        i < ov.len() ==> ov[i].0 == p && ov[i].1 == n,
    ensures
        find_override(ov, p, n) == (if i < ov.len() {
            Some(i)
        } else {
            None::<int>
        }),
{
    lemma_find_override(ov, p, n);
}


pub open spec fn overrides_view(s: Seq<(Vec<FieldName>, String, String)>) -> Seq<OverrideView> {
    s.map_values(|e: (Vec<FieldName>, String, String)| (path_view(e.0@), e.1@, e.2@))
}

/// The index of the override for rule `name` on path `names` in `ov`.
fn override_index(ov: &Vec<(Vec<FieldName>, String, String)>, names: &Vec<FieldName>, name: &String) -> (r:
    Option<usize>)
    ensures
        match r {
            Some(i) => i < ov@.len() && find_override(overrides_view(ov@), path_view(names@), name@)
                == Some(i as int),
            None => find_override(overrides_view(ov@), path_view(names@), name@) == None::<int>,
        },
{
    let ghost v = overrides_view(ov@);
    let mut i: usize = 0;
    while i < ov.len()
        invariant
            i <= ov@.len(),
            v == overrides_view(ov@),
            forall|j: int| 0 <= j < i ==> !(v[j].0 == path_view(names@) && v[j].1 == name@),
        decreases ov@.len() - i,
    {
        if same_path(&ov[i].0, names) && ov[i].1 == *name {
            proof {
                lemma_find_override_at(v, path_view(names@), name@, i as int);
            }
            return Some(i);
        }
        i = i + 1;
    }
    proof {
        lemma_find_override_at(v, path_view(names@), name@, i as int);
    }
    None
}

pub open spec fn keys_view(l: Seq<(&str, &str)>) -> Seq<(Seq<char>, Seq<char>)> {
    l.map_values(|k: (&str, &str)| (k.0@, k.1@))
}

/// An error among the first keys is the error of them all.
proof fn lemma_message_err<C>(es: Seq<EntryView<C>>, keys: Seq<(Seq<char>, Seq<char>)>, n: int)
    requires
        0 <= n <= keys.len(),
        message_spec(es, keys.subrange(0, n)) is Err,
    ensures
        message_spec(es, keys) == message_spec(es, keys.subrange(0, n)),
    decreases keys.len() - n,
{
    if n == keys.len() {
        assert(keys.subrange(0, n) =~= keys);
    } else {
        assert(keys.subrange(0, n + 1).drop_last() =~= keys.subrange(0, n));
        lemma_message_err(es, keys, n + 1);
    }
}

/// The text reported when rule `n` fails on path `p` with default message `m`:
/// the override for (p, n) where one is registered, else `m`.
pub open spec fn final_message(ov: Seq<OverrideView>, p: Seq<Segment>, n: Seq<char>, m: Seq<char>) -> Seq<
    char,
> {
    match find_override(ov, p, n) {
        Some(i) => ov[i].2,
        None => m,
    }
}

/// The messages reported for one registered path, given the verdicts of its rules.
pub open spec fn entry_messages<C>(
    e: EntryView<C>,
    ov: Seq<OverrideView>,
    data: Value,
    vs: Seq<Verdict>,
) -> Seq<Seq<char>> {
    match resolve(data, e.0) {
        Err(x) => seq![nav_message(x)],
        Ok(_) => failures(e.1, vs).map_values(
            |f: (Seq<char>, Seq<char>)| final_message(ov, e.0, f.0, f.1),
        ),
    }
}

/// The report: each path with at least one message, in registration order.
pub open spec fn report_spec<C>(
    es: Seq<EntryView<C>>,
    ov: Seq<OverrideView>,
    data: Value,
    vss: Seq<Seq<Verdict>>,
) -> Seq<(Seq<Segment>, Seq<Seq<char>>)>
    decreases es.len(),
{
    if es.len() == 0 || vss.len() == 0 {
        Seq::empty()
    } else {
        let prev = report_spec(es.drop_last(), ov, data, vss.drop_last());
        let m = entry_messages(es.last(), ov, data, vss.last());
        if m.len() == 0 {
            prev
        } else {
            prev.push((es.last().0, m))
        }
    }
}

/// The verdicts `vss[i]` are possible outcomes of the rules of entry `i` on
/// the value its path addresses.
pub open spec fn all_fit<C>(es: Seq<EntryView<C>>, data: Value, vss: Seq<Seq<Verdict>>) -> bool {
    &&& vss.len() == es.len()
    &&& forall|i: int|
        0 <= i < es.len() && (#[trigger] resolve(data, es[i].0)) is Ok ==> fits(
            es[i].1,
            resolve(data, es[i].0)->Ok_0,
            vss[i],
        )
}

pub open spec fn report_view(r: Seq<(Vec<FieldName>, Vec<String>)>) -> Seq<
    (Seq<Segment>, Seq<Seq<char>>),
> {
    r.map_values(|e: (Vec<FieldName>, Vec<String>)| (path_view(e.0@), names_view(e.1@)))
}

/// Where an override for rule `n` on path `p` is registered, the message
/// reported when that rule fails on that path is the override's text,
/// whatever the rule's default message.
pub proof fn lemma_override_wins(
    ov: Seq<OverrideView>,
    p: Seq<Segment>,
    n: Seq<char>,
    t: Seq<char>,
    m: Seq<char>,
)
    requires
        forall|i: int, j: int|
            0 <= i < j < ov.len() ==> !(ov[i].0 == ov[j].0 && ov[i].1 == ov[j].1),
        ov.contains((p, n, t)),
    ensures
        final_message(ov, p, n, m) == t,
{
    lemma_find_override(ov, p, n);
    let k = choose|k: int| 0 <= k < ov.len() && ov[k] == (p, n, t);
    match find_override(ov, p, n) {
        Some(i) => {
            if i != k {
                if i < k {
                    assert(!(ov[i].0 == ov[k].0 && ov[i].1 == ov[k].1));
                } else {
                    assert(!(ov[k].0 == ov[i].0 && ov[k].1 == ov[i].1));
                }
            }
        },
        None => {
            assert(ov[k].0 == p && ov[k].1 == n);
        },
    }
}

/// A message key that names a rule which its path's rules do not hold (or a
/// path without rules) makes the whole registration fail.
pub proof fn lemma_bad_key_refused<C>(
    es: Seq<EntryView<C>>,
    keys: Seq<(Seq<char>, Seq<char>)>,
    k: int,
)
    requires
        0 <= k < keys.len(),
        parse_message_spec(keys[k].0) is Ok,
        check_key(
            es,
            parse_message_spec(keys[k].0)->Ok_0.0,
            parse_message_spec(keys[k].0)->Ok_0.1,
        ) is Err,
    ensures
        message_spec(es, keys) is Err,
{
    let pre = keys.subrange(0, k + 1);
    assert(pre.drop_last() =~= keys.subrange(0, k));
    assert(pre.last() == keys[k]);
    assert(message_spec(es, pre) is Err);
    lemma_message_err(es, keys, k + 1);
}

/// With no registered rules there is nothing to report, whatever the data.
pub proof fn lemma_no_rules_no_report<C>(ov: Seq<OverrideView>, data: Value, vss: Seq<Seq<Verdict>>)
    ensures
        report_spec(Seq::<EntryView<C>>::empty(), ov, data, vss).len() == 0,
{
}

impl<C: Check> Validator<C> {
    /// The registered paths and their rules, in registration order.
    pub closed spec fn entries(&self) -> Seq<EntryView<C>> {
        self.rules@.map_values(|e: (Vec<FieldName>, RuleList<C>)| (path_view(e.0@), e.1.rules@))
    }

    /// The registered message overrides.
    pub closed spec fn overrides(&self) -> Seq<OverrideView> {
        overrides_view(self.message@)
    }

    /// One rule list per path, one override per key.
    pub open spec fn wf(&self) -> bool {
        unique_keys(self.entries(), self.overrides())
    }

    /// A validator with no rules and no overrides.
    pub fn new() -> (r: Validator<C>)
        ensures
            r.wf(),
            r.entries().len() == 0,
            r.overrides().len() == 0,
    {
        let r = Validator { rules: Vec::new(), message: Vec::new() };
        assert(r.entries() =~= Seq::<EntryView<C>>::empty());
        assert(r.overrides() =~= Seq::<OverrideView>::empty());
        r
    }

    /// The index of the entry for `names`.
    fn position(&self, names: &Vec<FieldName>) -> (r: Option<usize>)
        ensures
            match r {
                Some(i) => i < self.rules@.len() && find_path(self.entries(), path_view(names@))
                    == Some(i as int),
                None => find_path(self.entries(), path_view(names@)) == None::<int>,
            },
    {
        let ghost es = self.entries();
        let mut i: usize = 0;
        while i < self.rules.len()
            invariant
                i <= self.rules@.len(),
                es == self.entries(),
                forall|j: int| 0 <= j < i ==> es[j].0 != path_view(names@),
            decreases self.rules@.len() - i,
        {
            if same_path(&self.rules[i].0, names) {
                proof {
                    lemma_find_path_at(es, path_view(names@), i as int);
                }
                return Some(i);
            }
            i = i + 1;
        }
        proof {
            lemma_find_path_at(es, path_view(names@), i as int);
        }
        None
    }

    /// Registers `list` for the path `names`, replacing an earlier list for it.
    fn insert_rules(self, names: Vec<FieldName>, list: RuleList<C>) -> (r: Validator<C>)
        requires
            self.wf(),
        ensures
            r.wf(),
            r.entries() == set_rules(self.entries(), path_view(names@), list.rules@),
            r.overrides() == self.overrides(),
    {
        let ghost es = self.entries();
        let ghost p = path_view(names@);
        let pos = self.position(&names);
        proof {
            lemma_find_path(es, p);
        }
        let mut rules = self.rules;
        let ghost lv = list.rules@;
        match pos {
            Some(i) => {
                rules.set(i, (names, list));
            },
            None => {
                rules.push((names, list));
            },
        }
        let r = Validator { rules, message: self.message };
        assert(r.entries() =~= set_rules(es, p, lv));
        r
    }

    /// Registers `list` for the path that `field` denotes.
    pub fn rule(self, field: &str, list: RuleList<C>) -> (r: Result<Validator<C>, ParseError>)
        requires
            self.wf(),
        ensures
            match r {
                Ok(v) => parse_spec(field@) is Ok && v.wf() && v.entries() == set_rules(
                    self.entries(),
                    parse_spec(field@)->Ok_0,
                    list.rules@,
                ) && v.overrides() == self.overrides(),
                Err(e) => parse_spec(field@) == Err::<Seq<Segment>, ParseError>(e),
            },
    {
        match parse(field) {
            Ok(names) => Ok(self.insert_rules(names, list)),
            Err(e) => Err(e),
        }
    }

    /// Registers `list` for position `index` of a tuple.
    pub fn rule_tuple(self, index: usize, list: RuleList<C>) -> (r: Validator<C>)
        requires
            self.wf(),
        ensures
            r.wf(),
            r.entries() == set_rules(
                self.entries(),
                seq![Segment::Tuple(index as nat)],
                list.rules@,
            ),
            r.overrides() == self.overrides(),
    {
        let mut names: Vec<FieldName> = Vec::new();
        names.push(FieldName::Tuple(index));
        assert(path_view(names@) =~= seq![Segment::Tuple(index as nat)]);
        self.insert_rules(names, list)
    }

    /// Registers `list` for position `index` of an array.
    pub fn rule_array(self, index: usize, list: RuleList<C>) -> (r: Validator<C>)
        requires
            self.wf(),
        ensures
            r.wf(),
            r.entries() == set_rules(
                self.entries(),
                seq![Segment::Array(index as nat)],
                list.rules@,
            ),
            r.overrides() == self.overrides(),
    {
        let mut names: Vec<FieldName> = Vec::new();
        names.push(FieldName::Array(index));
        assert(path_view(names@) =~= seq![Segment::Array(index as nat)]);
        self.insert_rules(names, list)
    }

    /// The rules registered for `names`.
    pub fn rule_get(&self, names: &Vec<FieldName>) -> (r: Option<&RuleList<C>>)
        ensures
            match r {
                Some(l) => find_path(self.entries(), path_view(names@)) is Some && l.rules@
                    == self.entries()[find_path(self.entries(), path_view(names@))->Some_0].1,
                None => find_path(self.entries(), path_view(names@)) is None,
            },
    {
        match self.position(names) {
            Some(i) => Some(&self.rules[i].1),
            None => None,
        }
    }

    /// The names of the rules registered for `names`.
    pub fn rules_name(&self, names: &Vec<FieldName>) -> (r: Option<Vec<String>>)
        ensures
            match r {
                Some(v) => find_path(self.entries(), path_view(names@)) is Some && names_view(v@)
                    == rule_names(
                    self.entries()[find_path(self.entries(), path_view(names@))->Some_0].1,
                ),
                None => find_path(self.entries(), path_view(names@)) is None,
            },
    {
        match self.rule_get(names) {
            Some(l) => Some(l.get_rules_name()),
            None => None,
        }
    }

    /// Whether an override for rule `key.1` on path `key.0` may be registered.
    pub fn exit_message(&self, key: &(Vec<FieldName>, String)) -> (r: Result<(), ConfigError>)
        ensures
            r == check_key(self.entries(), path_view(key.0@), key.1@),
    {
        match self.rules_name(&key.0) {
            None => Err(ConfigError::UnknownPath),
            Some(names) => {
                let ghost want = rule_names(
                    self.entries()[find_path(self.entries(), path_view(key.0@))->Some_0].1,
                );
                let mut i: usize = 0;
                while i < names.len()
                    invariant
                        i <= names@.len(),
                        names_view(names@) == want,
                        find_path(self.entries(), path_view(key.0@)) is Some,
                        want == rule_names(
                            self.entries()[find_path(self.entries(), path_view(key.0@))->Some_0].1,
                        ),
                        forall|j: int| 0 <= j < i ==> want[j] != key.1@,
                    decreases names@.len() - i,
                {
                    if names[i] == key.1 {
                        assert(want[i as int] == key.1@);
                        assert(want.contains(key.1@));
                        return Ok(());
                    }
                    i = i + 1;
                }
                assert(!want.contains(key.1@));
                Err(ConfigError::UnknownRule)
            },
        }
    }

    /// The index of the override for rule `name` on path `names`.
    fn override_position(&self, names: &Vec<FieldName>, name: &String) -> (r: Option<usize>)
        ensures
            match r {
                Some(i) => i < self.message@.len() && find_override(
                    self.overrides(),
                    path_view(names@),
                    name@,
                ) == Some(i as int),
                None => find_override(self.overrides(), path_view(names@), name@) == None::<int>,
            },
    {
        override_index(&self.message, names, name)
    }

    /// The override text for rule `key.1` on path `key.0`.
    pub fn get_message(&self, key: &(Vec<FieldName>, String)) -> (r: Option<&String>)
        ensures
            match r {
                Some(t) => find_override(self.overrides(), path_view(key.0@), key.1@) is Some
                    && t@ == self.overrides()[find_override(
                    self.overrides(),
                    path_view(key.0@),
                    key.1@,
                )->Some_0].2,
                None => find_override(self.overrides(), path_view(key.0@), key.1@) is None,
            },
    {
        match self.override_position(&key.0, &key.1) {
            Some(i) => Some(&self.message[i].2),
            None => None,
        }
    }

    /// Replaces the message overrides with those of `list`: each entry is a
    /// key `path.rule_name` and the text to report when that rule fails on
    /// that path. A key that does not parse, names a path without rules, or
    /// names a rule that the path's rules do not hold is refused; of two
    /// entries with one key the later wins.
    pub fn message(self, list: &[(&str, &str)]) -> (r: Result<Validator<C>, ConfigError>)
        requires
            self.wf(),
        ensures
            match r {
                Ok(v) => message_spec(self.entries(), keys_view(list@)) is Ok && v.wf()
                    && v.entries() == self.entries() && v.overrides() == message_spec(
                    self.entries(),
                    keys_view(list@),
                )->Ok_0,
                Err(e) => message_spec(self.entries(), keys_view(list@)) == Err::<
                    Seq<OverrideView>,
                    ConfigError,
                >(e),
            },
    {
        let ghost es = self.entries();
        let ghost keys = keys_view(list@);
        let mut ov: Vec<(Vec<FieldName>, String, String)> = Vec::new();
        let mut i: usize = 0;
        assert(keys.subrange(0, 0) =~= Seq::<(Seq<char>, Seq<char>)>::empty());
        assert(overrides_view(ov@) =~= Seq::<OverrideView>::empty());
        while i < list.len()
            invariant
                i <= list@.len(),
                es == self.entries(),
                self.wf(),
                keys == keys_view(list@),
                message_spec(es, keys.subrange(0, i as int)) == Ok::<
                    Seq<OverrideView>,
                    ConfigError,
                >(overrides_view(ov@)),
                unique_keys(es, overrides_view(ov@)),
            decreases list@.len() - i,
        {
            let (k, t) = list[i];
            let ghost before = overrides_view(ov@);
            assert(keys.subrange(0, i + 1).drop_last() =~= keys.subrange(0, i as int));
            assert(keys.subrange(0, i + 1).last() == (k@, t@));
            match parse_message(k) {
                Err(e) => {
                    proof {
                        lemma_message_err(es, keys, i + 1);
                    }
                    return Err(ConfigError::Parse(e));
                },
                Ok(key) => {
                    match self.exit_message(&key) {
                        Err(e) => {
                            proof {
                                lemma_message_err(es, keys, i + 1);
                            }
                            return Err(e);
                        },
                        Ok(()) => {},
                    }
                    let (p, n) = key;
                    let ghost pv = path_view(p@);
                    let ghost nv = n@;
                    let pos = override_index(&ov, &p, &n);
                    proof {
                        lemma_find_override(before, pv, nv);
                    }
                    let text = String::from_str(t);
                    match pos {
                        Some(j) => {
                            ov.set(j, (p, n, text));
                        },
                        None => {
                            ov.push((p, n, text));
                        },
                    }
                    assert(overrides_view(ov@) =~= set_override(before, pv, nv, t@));
                },
            }
            i = i + 1;
        }
        assert(keys.subrange(0, i as int) =~= keys);
        let r = Validator { rules: self.rules, message: ov };
        assert(r.entries() == es);
        Ok(r)
    }


    /// Runs every registered rule list on the value its path addresses in
    /// `data` and collects, per path, the message of each failing rule (its
    /// override where one is registered). A path that does not lead to a
    /// value is reported with the reason. `Ok` when no path has a message.
    pub fn validate(self, data: Value) -> (r: Result<(), Vec<(Vec<FieldName>, Vec<String>)>>)
        ensures
            self.entries().len() == 0 ==> r is Ok,
            exists|vss: Seq<Seq<Verdict>>|
                {
                    &&& all_fit(self.entries(), data, vss)
                    &&& match r {
                        Ok(()) => report_spec(self.entries(), self.overrides(), data, vss).len()
                            == 0,
                        Err(rep) => report_spec(self.entries(), self.overrides(), data, vss).len()
                            > 0 && report_view(rep@) == report_spec(
                            self.entries(),
                            self.overrides(),
                            data,
                            vss,
                        ),
                    }
                },
    {
        let ghost es = self.entries();
        let ghost ov = self.overrides();
        let mut report: Vec<(Vec<FieldName>, Vec<String>)> = Vec::new();
        let ghost mut vss: Seq<Seq<Verdict>> = Seq::empty();
        let mut i: usize = 0;
        while i < self.rules.len()
            invariant
                i <= self.rules@.len(),
                es == self.entries(),
                ov == self.overrides(),
                vss.len() == i,
                all_fit(es.subrange(0, i as int), data, vss),
                report_view(report@) == report_spec(es.subrange(0, i as int), ov, data, vss),
            decreases self.rules@.len() - i,
        {
            let path = &self.rules[i].0;
            let list = &self.rules[i].1;
            let ghost e = es[i as int];
            assert(e.0 == path_view(path@) && e.1 == list.rules@);
            let mut msgs: Vec<String> = Vec::new();
            let ghost mut vs: Seq<Verdict> = Seq::empty();
            match locate(&data, path) {
                Err(x) => {
                    msgs.push(x.message());
                    assert(names_view(msgs@) =~= entry_messages(e, ov, data, vs));
                },
                Ok(w) => {
                    let fails = list.call(w);
                    proof {
                        vs = choose|vs: Seq<Verdict>|
                            fits(list.rules@, *w, vs) && pairs_view(fails@) == failures(
                                list.rules@,
                                vs,
                            );
                    }
                    let ghost fv = pairs_view(fails@);
                    let mut k: usize = 0;
                    while k < fails.len()
                        invariant
                            k <= fails@.len(),
                            fv == pairs_view(fails@),
                            ov == self.overrides(),
                            e.0 == path_view(path@),
                            names_view(msgs@) == fv.subrange(0, k as int).map_values(
                                |f: (Seq<char>, Seq<char>)| final_message(ov, e.0, f.0, f.1),
                            ),
                        decreases fails@.len() - k,
                    {
                        let text = match self.override_position(path, &fails[k].0) {
                            Some(j) => self.message[j].2.clone(),
                            None => fails[k].1.clone(),
                        };
                        let ghost before = msgs@;
                        msgs.push(text);
                        assert(fv.subrange(0, k + 1) =~= fv.subrange(0, k as int).push(
                            fv[k as int],
                        ));
                        assert(names_view(msgs@) =~= names_view(before).push(text@));
                        assert(names_view(msgs@) =~= fv.subrange(0, k + 1).map_values(
                            |f: (Seq<char>, Seq<char>)| final_message(ov, e.0, f.0, f.1),
                        ));
                        k = k + 1;
                    }
                    assert(fv.subrange(0, k as int) =~= fv);
                    assert(names_view(msgs@) =~= entry_messages(e, ov, data, vs));
                },
            }
            let ghost old_vss = vss;
            proof {
                vss = vss.push(vs);
                assert(vss.drop_last() =~= old_vss);
                assert(es.subrange(0, i + 1).drop_last() =~= es.subrange(0, i as int));
                assert(es.subrange(0, i + 1).last() == e);
                assert forall|j: int|
                    0 <= j < i + 1 && (#[trigger] resolve(data, es.subrange(0, i + 1)[j].0))
                        is Ok implies fits(
                    es.subrange(0, i + 1)[j].1,
                    resolve(data, es.subrange(0, i + 1)[j].0)->Ok_0,
                    vss[j],
                ) by {
                    if j < i {
                        assert(es.subrange(0, i + 1)[j] == es.subrange(0, i as int)[j]);
                    }
                }
            }
            if msgs.len() > 0 {
                let p = clone_path(path);
                let ghost before = report@;
                report.push((p, msgs));
                assert(report_view(report@) =~= report_view(before).push(
                    (path_view(p@), names_view(msgs@)),
                ));
            }
            i = i + 1;
        }
        assert(es.subrange(0, i as int) =~= es);
        if report.len() == 0 {
            Ok(())
        } else {
            Err(report)
        }
    }

}

} // verus!
