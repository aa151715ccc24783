use vstd::prelude::*;
use vstd::string::*;

verus! {

/// One segment of a field path.
#[derive(PartialEq, Eq, Debug, Clone)]
pub enum FieldName {
    /// A key of a map or a field of a struct.
    Literal(String),
    /// A position in a fixed-arity tuple.
    Tuple(usize),
    /// A position in a homogeneous sequence.
    Array(usize),
}

/// The mathematical form of a path segment.
pub enum Segment {
    Literal(Seq<char>),
    Tuple(nat),
    Array(nat),
}

impl View for FieldName {
    type V = Segment;

    open spec fn view(&self) -> Segment {
        match self {
            FieldName::Literal(s) => Segment::Literal(s@),
            FieldName::Tuple(i) => Segment::Tuple(*i as nat),
            FieldName::Array(i) => Segment::Array(*i as nat),
        }
    }
}

/// Why a path expression was refused.
#[derive(PartialEq, Eq, Debug, Clone, Copy, Structural)]
pub enum ParseError {
    /// A segment is empty: an empty path, or a leading, trailing or doubled dot.
    EmptySegment,
    /// A bracketed segment does not hold a non-negative integer that fits in `usize`.
    BadIndex,
    /// A message key has no `.` separating the path from the rule name.
    MissingRuleName,
}

/// A path as a sequence of mathematical segments.
pub open spec fn path_view(p: Seq<FieldName>) -> Seq<Segment> {
    p.map_values(|f: FieldName| f@)
}

/// The parts of `s` between its dots, in order (always at least one).
pub open spec fn split_dots(s: Seq<char>) -> Seq<Seq<char>>
    decreases s.len(),
{
    if s.len() == 0 {
        seq![Seq::<char>::empty()]
    } else {
        let r = split_dots(s.drop_first());
        if s[0] == '.' {
            seq![Seq::<char>::empty()] + r
        } else {
            r.update(0, seq![s[0]] + r[0])
        }
    }
}

/// The parts joined back with dots between them.
pub open spec fn join_dots(parts: Seq<Seq<char>>) -> Seq<char>
    decreases parts.len(),
{
    if parts.len() == 0 {
        Seq::empty()
    } else if parts.len() == 1 {
        parts[0]
    } else {
        parts[0] + seq!['.'] + join_dots(parts.drop_first())
    }
}

pub open spec fn is_digit(c: char) -> bool {
    '0' <= c && c <= '9'
}

pub open spec fn all_digits(t: Seq<char>) -> bool {
    t.len() > 0 && forall|i: int| 0 <= i < t.len() ==> is_digit(#[trigger] t[i])
}

pub open spec fn has_dot(t: Seq<char>) -> bool {
    exists|i: int| 0 <= i < t.len() && t[i] == '.'
}

/// The number written in decimal by the digits `t`.
pub open spec fn digits_value(t: Seq<char>) -> nat
    decreases t.len(),
{
    if t.len() == 0 {
        0
    } else {
        digits_value(t.drop_last()) * 10 + ((t.last() as u32) - ('0' as u32)) as nat
    }
}

/// A part written `[n]`: what stands between the brackets.
pub open spec fn bracket_inner(t: Seq<char>) -> Seq<char> {
    t.subrange(1, t.len() - 1)
}

/// The segment that one dot-free part denotes: digits alone name a tuple
/// position, `[digits]` an array position, anything else a literal key.
pub open spec fn segment_of(t: Seq<char>) -> Result<Segment, ParseError> {
    if t.len() == 0 {
        Err(ParseError::EmptySegment)
    } else if all_digits(t) {
        if digits_value(t) <= usize::MAX {
            Ok(Segment::Tuple(digits_value(t)))
        } else {
            Err(ParseError::BadIndex)
        }
    } else if t[0] == '[' {
        if t.len() >= 3 && t.last() == ']' && all_digits(bracket_inner(t)) && digits_value(
            bracket_inner(t),
        ) <= usize::MAX {
            Ok(Segment::Array(digits_value(bracket_inner(t))))
        } else {
            Err(ParseError::BadIndex)
        }
    } else {
        Ok(Segment::Literal(t))
    }
}

/// The segments of a sequence of parts, or the error of the first bad part.
pub open spec fn parse_parts(parts: Seq<Seq<char>>) -> Result<Seq<Segment>, ParseError>
    decreases parts.len(),
{
    if parts.len() == 0 {
        Ok(Seq::empty())
    } else {
        match segment_of(parts[0]) {
            Err(e) => Err(e),
            Ok(g) => match parse_parts(parts.drop_first()) {
                Err(e) => Err(e),
                Ok(r) => Ok(seq![g] + r),
            },
        }
    }
}

/// What a path expression denotes.
pub open spec fn parse_spec(s: Seq<char>) -> Result<Seq<Segment>, ParseError> {
    parse_parts(split_dots(s))
}

/// Index of the last dot of `s`, if any.
pub open spec fn last_dot(s: Seq<char>) -> Option<int>
    decreases s.len(),
{
    if s.len() == 0 {
        None
    } else if s.last() == '.' {
        Some(s.len() - 1)
    } else {
        last_dot(s.drop_last())
    }
}

/// What a message key denotes: a path and the name of a rule on it.
pub open spec fn parse_message_spec(s: Seq<char>) -> Result<(Seq<Segment>, Seq<char>), ParseError> {
    match last_dot(s) {
        None => Err(ParseError::MissingRuleName),
        Some(d) => match parse_spec(s.subrange(0, d)) {
            Err(e) => Err(e),
            Ok(p) => Ok((p, s.subrange(d + 1, s.len() as int))),
        },
    }
}

pub proof fn lemma_split_nonempty(s: Seq<char>)
    ensures
        split_dots(s).len() >= 1,
    decreases s.len(),
{
    if s.len() > 0 {
        lemma_split_nonempty(s.drop_first());
    }
}

/// Splitting at the first dot: the part before it, then the parts after it.
pub proof fn lemma_split_at_first_dot(t: Seq<char>, j: int)
    requires
        0 <= j <= t.len(),
        forall|k: int| 0 <= k < j ==> t[k] != '.',
        j < t.len() ==> t[j] == '.',
    ensures
        j == t.len() ==> split_dots(t) == seq![t],
        j < t.len() ==> split_dots(t) == seq![t.subrange(0, j)] + split_dots(
            t.subrange(j + 1, t.len() as int),
        ),
    decreases j,
{
    if j == 0 {
        if t.len() == 0 {
            assert(t =~= Seq::<char>::empty());
        } else {
            assert(t.drop_first() =~= t.subrange(1, t.len() as int));
            assert(t.subrange(0, 0) =~= Seq::<char>::empty());
        }
    } else {
        let u = t.drop_first();
        lemma_split_at_first_dot(u, j - 1);
        lemma_split_nonempty(u);
        if j == t.len() {
            assert(seq![t[0]] + u =~= t);
            assert(split_dots(t) =~= seq![t]);
        } else {
            assert(u.subrange(j, u.len() as int) =~= t.subrange(j + 1, t.len() as int));
            assert(seq![t[0]] + u.subrange(0, j - 1) =~= t.subrange(0, j));
            assert(split_dots(t) =~= seq![t.subrange(0, j)] + split_dots(
                t.subrange(j + 1, t.len() as int),
            ));
        }
    }
}

/// Index of the first dot at or after `from`, or the length of `s`.
fn next_dot(s: &str, from: usize, len: usize) -> (j: usize)
    requires
        len == s@.len(),
        from <= len,
    ensures
        from <= j <= len,
        forall|k: int| from <= k < j ==> s@[k] != '.',
        j < len ==> s@[j as int] == '.',
{
    let mut j: usize = from;
    while j < len
        invariant
            from <= j <= len,
            len == s@.len(),
            forall|k: int| from <= k < j ==> s@[k] != '.',
        decreases len - j,
    {
        if s.get_char(j) == '.' {
            return j;
        }
        j = j + 1;
    }
    j
}

proof fn lemma_digits_step(t: Seq<char>, k: int)
    requires
        0 <= k < t.len(),
    ensures
        digits_value(t.subrange(0, k + 1)) == digits_value(t.subrange(0, k)) * 10 + ((t[k] as u32)
            - ('0' as u32)) as nat,
{
    assert(t.subrange(0, k + 1).drop_last() =~= t.subrange(0, k));
}

proof fn lemma_digits_prefix_le(t: Seq<char>, k: int)
    requires
        0 <= k <= t.len(),
    ensures
        digits_value(t.subrange(0, k)) <= digits_value(t),
    decreases t.len() - k,
{
    if k < t.len() {
        lemma_digits_step(t, k);
        lemma_digits_prefix_le(t, k + 1);
    } else {
        assert(t.subrange(0, k) =~= t);
    }
}

/// The value of the digits `s[from..to]`, or `None` where a character is no
/// digit or the value does not fit in `usize`.
fn read_index(s: &str, from: usize, to: usize) -> (r: Option<usize>)
    requires
        from < to <= s@.len(),
    ensures
        match r {
            Some(n) => all_digits(s@.subrange(from as int, to as int)) && n == digits_value(
                s@.subrange(from as int, to as int),
            ),
            None => !all_digits(s@.subrange(from as int, to as int)) || digits_value(
                s@.subrange(from as int, to as int),
            ) > usize::MAX,
        },
{
    let ghost t = s@.subrange(from as int, to as int);
    let mut acc: usize = 0;
    let mut i: usize = from;
    while i < to
        invariant
            from <= i <= to <= s@.len(),
            t == s@.subrange(from as int, to as int),
            forall|k: int| 0 <= k < i - from ==> is_digit(#[trigger] t[k]),
            acc == digits_value(t.subrange(0, i - from)),
        decreases to - i,
    {
        let c = s.get_char(i);
        if !('0' <= c && c <= '9') {
            assert(t[i - from] == c);
            return None;
        }
        let d: usize = (c as u32 - '0' as u32) as usize;
        proof {
            lemma_digits_step(t, i - from);
        }
        if acc > (usize::MAX - d) / 10 {
            proof {
                lemma_digits_prefix_le(t, i - from + 1);
            }
            return None;
        }
        acc = acc * 10 + d;
        i = i + 1;
    }
    assert(t.subrange(0, to - from) =~= t);
    Some(acc)
}

/// The segment that `s[from..to]` denotes (see `segment_of`).
fn parse_segment(s: &str, from: usize, to: usize) -> (r: Result<FieldName, ParseError>)
    requires
        from <= to <= s@.len(),
    ensures
        match r {
            Ok(f) => segment_of(s@.subrange(from as int, to as int)) == Ok::<Segment, ParseError>(
                f@,
            ),
            Err(e) => segment_of(s@.subrange(from as int, to as int)) == Err::<Segment, ParseError>(
                e,
            ),
        },
{
    let ghost t = s@.subrange(from as int, to as int);
    if from == to {
        return Err(ParseError::EmptySegment);
    }
    match read_index(s, from, to) {
        Some(n) => {
            return Ok(FieldName::Tuple(n));
        },
        None => {},
    }
    if all_digits_at(s, from, to) {
        return Err(ParseError::BadIndex);
    }
    if s.get_char(from) == '[' {
        assert(t[0] == s@[from as int]);
        if to - from >= 3 && s.get_char(to - 1) == ']' {
            assert(t.last() == s@[to - 1]);
            assert(bracket_inner(t) =~= s@.subrange(from + 1, to - 1));
            match read_index(s, from + 1, to - 1) {
                Some(n) => {
                    return Ok(FieldName::Array(n));
                },
                None => {
                    return Err(ParseError::BadIndex);
                },
            }
        }
        return Err(ParseError::BadIndex);
    }
    assert(t[0] == s@[from as int]);
    let lit = String::from_str(s.substring_char(from, to));
    Ok(FieldName::Literal(lit))
}

/// Whether every character of `s[from..to]` is a digit.
fn all_digits_at(s: &str, from: usize, to: usize) -> (r: bool)
    requires
        from < to <= s@.len(),
    ensures
        r == all_digits(s@.subrange(from as int, to as int)),
{
    let ghost t = s@.subrange(from as int, to as int);
    let mut i: usize = from;
    while i < to
        invariant
            from <= i <= to <= s@.len(),
            t == s@.subrange(from as int, to as int),
            forall|k: int| 0 <= k < i - from ==> is_digit(#[trigger] t[k]),
        decreases to - i,
    {
        let c = s.get_char(i);
        if !('0' <= c && c <= '9') {
            assert(t[i - from] == c);
            return false;
        }
        i = i + 1;
    }
    true
}

/// The parsed segments so far, put before what the rest of the text gives.
pub open spec fn prepend(
    done: Seq<Segment>,
    rest: Result<Seq<Segment>, ParseError>,
) -> Result<Seq<Segment>, ParseError> {
    match rest {
        Ok(r) => Ok(done + r),
        Err(e) => Err(e),
    }
}

/// Parses a dotted path expression into its segments.
///
/// Each part between dots is a segment: digits alone give `Tuple(n)`,
/// `[digits]` gives `Array(n)`, any other non-empty text gives `Literal`.
pub fn parse(s: &str) -> (r: Result<Vec<FieldName>, ParseError>)
    ensures
        match r {
            Ok(p) => parse_spec(s@) == Ok::<Seq<Segment>, ParseError>(path_view(p@)),
            Err(e) => parse_spec(s@) == Err::<Seq<Segment>, ParseError>(e),
        },
{
    let len = s.unicode_len();
    let mut out: Vec<FieldName> = Vec::new();
    let mut start: usize = 0;
    assert(s@.subrange(0, len as int) =~= s@);
    loop
        invariant
            start <= len,
            len == s@.len(),
            parse_spec(s@) == prepend(
                path_view(out@),
                parse_parts(split_dots(s@.subrange(start as int, len as int))),
            ),
        decreases len - start,
    {
        let j = next_dot(s, start, len);
        let ghost t = s@.subrange(start as int, len as int);
        proof {
            lemma_split_at_first_dot(t, j - start);
        }
        let seg = parse_segment(s, start, j);
        if j == len {
            assert(t.subrange(0, j - start) =~= t);
            assert(seq![t].drop_first() =~= Seq::<Seq<char>>::empty());
            match seg {
                Ok(f) => {
                    let ghost before = out@;
                    out.push(f);
                    assert(path_view(out@) =~= path_view(before) + seq![f@]);
                    assert(seq![f@] + Seq::<Segment>::empty() =~= seq![f@]);
                    assert(parse_parts(Seq::<Seq<char>>::empty()) == Ok::<Seq<Segment>, ParseError>(
                        Seq::empty(),
                    ));
                    assert(seq![t][0] == t);
                    assert(parse_parts(seq![t]) == Ok::<Seq<Segment>, ParseError>(seq![f@]));
                    return Ok(out);
                },
                Err(e) => {
                    return Err(e);
                },
            }
        }
        let ghost rest = s@.subrange(j + 1, len as int);
        assert(t.subrange(j - start + 1, t.len() as int) =~= rest);
        assert(t.subrange(0, j - start) =~= s@.subrange(start as int, j as int));
        assert((seq![s@.subrange(start as int, j as int)] + split_dots(rest)).drop_first()
            =~= split_dots(rest));
        match seg {
            Ok(f) => {
                let ghost before = out@;
                out.push(f);
                assert(path_view(out@) =~= path_view(before) + seq![f@]);
                proof {
                    match parse_parts(split_dots(rest)) {
                        Ok(x) => {
                            assert(path_view(before) + (seq![f@] + x) =~= path_view(out@) + x);
                        },
                        Err(_) => {},
                    }
                }
            },
            Err(e) => {
                return Err(e);
            },
        }
        start = j + 1;
    }
}

proof fn lemma_last_dot(s: Seq<char>, d: int)
    requires
        -1 <= d < s.len(),
        d >= 0 ==> s[d] == '.',
        forall|k: int| d < k < s.len() ==> s[k] != '.',
    ensures
        last_dot(s) == (if d < 0 {
            None::<int>
        } else {
            Some(d)
        }),
    decreases s.len(),
{
    if s.len() > 0 && d != s.len() - 1 {
        lemma_last_dot(s.drop_last(), d);
    }
}

/// Parses a message key `path.rule_name`: what stands before the last dot
/// is a path expression, what follows it the name of a rule.
pub fn parse_message(s: &str) -> (r: Result<(Vec<FieldName>, String), ParseError>)
    ensures
        match r {
            Ok((p, name)) => parse_message_spec(s@) == Ok::<(Seq<Segment>, Seq<char>), ParseError>(
                (path_view(p@), name@),
            ),
            Err(e) => parse_message_spec(s@) == Err::<(Seq<Segment>, Seq<char>), ParseError>(e),
        },
{
    let len = s.unicode_len();
    let mut i: usize = len;
    while i > 0
        invariant
            i <= len,
            len == s@.len(),
            forall|k: int| i <= k < len ==> s@[k] != '.',
        decreases i,
    {
        if s.get_char(i - 1) == '.' {
            proof {
                lemma_last_dot(s@, i - 1);
            }
            let path = parse(s.substring_char(0, i - 1));
            let name = String::from_str(s.substring_char(i, len));
            return match path {
                Ok(p) => Ok((p, name)),
                Err(e) => Err(e),
            };
        }
        i = i - 1;
    }
    proof {
        lemma_last_dot(s@, -1);
    }
    Err(ParseError::MissingRuleName)
}

impl FieldName {
    /// A copy of this segment.
    pub fn duplicate(&self) -> (r: FieldName)
        ensures
            r@ == self@,
    {
        match self {
            FieldName::Literal(s) => FieldName::Literal(s.clone()),
            FieldName::Tuple(i) => FieldName::Tuple(*i),
            FieldName::Array(i) => FieldName::Array(*i),
        }
    }

    /// Whether two segments are equal in kind and in value.
    pub fn same(&self, other: &FieldName) -> (r: bool)
        ensures
            r == (self@ == other@),
    {
        match (self, other) {
            (FieldName::Literal(a), FieldName::Literal(b)) => *a == *b,
            (FieldName::Tuple(a), FieldName::Tuple(b)) => *a == *b,
            (FieldName::Array(a), FieldName::Array(b)) => *a == *b,
            _ => false,
        }
    }
}

/// A copy of a path.
pub fn clone_path(p: &Vec<FieldName>) -> (r: Vec<FieldName>)
    ensures
        path_view(r@) == path_view(p@),
{
    let mut out: Vec<FieldName> = Vec::new();
    let mut i: usize = 0;
    while i < p.len()
        invariant
            i <= p@.len(),
            path_view(out@) == path_view(p@.subrange(0, i as int)),
        decreases p@.len() - i,
    {
        let f = p[i].duplicate();
        let ghost before = out@;
        out.push(f);
        assert(path_view(out@) =~= path_view(before).push(f@));
        assert(p@.subrange(0, i + 1) =~= p@.subrange(0, i as int).push(p@[i as int]));
        assert(path_view(out@) =~= path_view(p@.subrange(0, i + 1)));
        i = i + 1;
    }
    assert(p@.subrange(0, i as int) =~= p@);
    out
}

/// Whether two paths have equal segments, element-wise.
pub fn same_path(a: &Vec<FieldName>, b: &Vec<FieldName>) -> (r: bool)
    ensures
        r == (path_view(a@) == path_view(b@)),
{
    if a.len() != b.len() {
        assert(path_view(a@).len() != path_view(b@).len());
        return false;
    }
    let mut i: usize = 0;
    while i < a.len()
        invariant
            i <= a@.len(),
            a@.len() == b@.len(),
            forall|k: int| 0 <= k < i ==> a@[k]@ == b@[k]@,
        decreases a@.len() - i,
    {
        if !a[i].same(&b[i]) {
            assert(path_view(a@)[i as int] != path_view(b@)[i as int]);
            return false;
        }
        i = i + 1;
    }
    assert(path_view(a@) =~= path_view(b@));
    true
}

/// A part that parses as a literal key: non-empty, without dots, not all
/// digits and not opening with a bracket.
pub open spec fn literal_part(t: Seq<char>) -> bool {
    t.len() > 0 && !has_dot(t) && !all_digits(t) && t[0] != '['
}

proof fn lemma_split_join(parts: Seq<Seq<char>>)
    requires
        parts.len() >= 1,
        forall|i: int| 0 <= i < parts.len() ==> !has_dot(#[trigger] parts[i]),
    ensures
        split_dots(join_dots(parts)) == parts,
    decreases parts.len(),
{
    let t = join_dots(parts);
    let a = parts[0];
    if parts.len() == 1 {
        lemma_split_at_first_dot(a, a.len() as int);
        assert(seq![a] =~= parts);
    } else {
        let rest = parts.drop_first();
        assert(forall|i: int| 0 <= i < rest.len() ==> rest[i] == parts[i + 1]);
        lemma_split_join(rest);
        assert(t == a + seq!['.'] + join_dots(rest));
        assert(t.subrange(0, a.len() as int) =~= a);
        assert(t.subrange(a.len() as int + 1, t.len() as int) =~= join_dots(rest));
        assert forall|k: int| 0 <= k < a.len() implies t[k] != '.' by {
            assert(t[k] == a[k]);
        }
        lemma_split_at_first_dot(t, a.len() as int);
        assert(seq![a] + rest =~= parts);
    }
}

proof fn lemma_parse_literals(parts: Seq<Seq<char>>)
    requires
        forall|i: int| 0 <= i < parts.len() ==> literal_part(#[trigger] parts[i]),
    ensures
        parse_parts(parts) == Ok::<Seq<Segment>, ParseError>(
            parts.map_values(|t: Seq<char>| Segment::Literal(t)),
        ),
    decreases parts.len(),
{
    if parts.len() > 0 {
        let rest = parts.drop_first();
        assert(forall|i: int| 0 <= i < rest.len() ==> rest[i] == parts[i + 1]);
        lemma_parse_literals(rest);
        assert(literal_part(parts[0]));
        assert(seq![Segment::Literal(parts[0])] + rest.map_values(
            |t: Seq<char>| Segment::Literal(t),
        ) =~= parts.map_values(|t: Seq<char>| Segment::Literal(t)));
    } else {
        assert(parts.map_values(|t: Seq<char>| Segment::Literal(t)) =~= Seq::<Segment>::empty());
    }
}

/// Joining the parts of a path expression with dots gives it back.
pub proof fn lemma_join_split(s: Seq<char>)
    ensures
        join_dots(split_dots(s)) == s,
    decreases s.len(),
{
    if s.len() > 0 {
        let u = s.drop_first();
        let r = split_dots(u);
        lemma_join_split(u);
        lemma_split_nonempty(u);
        if s[0] == '.' {
            let q = seq![Seq::<char>::empty()] + r;
            assert(q.drop_first() =~= r);
            assert(Seq::<char>::empty() + seq!['.'] + u =~= s);
        } else {
            let q = r.update(0, seq![s[0]] + r[0]);
            if r.len() == 1 {
                assert(seq![s[0]] + u =~= s);
            } else {
                assert(q.drop_first() =~= r.drop_first());
                assert(seq![s[0]] + r[0] + seq!['.'] + join_dots(r.drop_first()) =~= seq![s[0]]
                    + (r[0] + seq!['.'] + join_dots(r.drop_first())));
                assert(seq![s[0]] + u =~= s);
            }
        }
    }
}

/// A path written as literal keys joined with dots parses to those keys,
/// one literal segment each, in order; and parsing is undone by joining.
pub proof fn lemma_literal_path_round_trip(parts: Seq<Seq<char>>)
    requires
        parts.len() >= 1,
        forall|i: int| 0 <= i < parts.len() ==> literal_part(#[trigger] parts[i]),
    ensures
        parse_spec(join_dots(parts)) == Ok::<Seq<Segment>, ParseError>(
            parts.map_values(|t: Seq<char>| Segment::Literal(t)),
        ),
        split_dots(join_dots(parts)) == parts,
{
    assert forall|i: int| 0 <= i < parts.len() implies !has_dot(#[trigger] parts[i]) by {
        assert(literal_part(parts[i]));
    }
    lemma_split_join(parts);
    lemma_parse_literals(parts);
}

} // verus!
