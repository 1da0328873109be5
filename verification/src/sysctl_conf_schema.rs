//! The schema: a flat registry from full dotted key to a declared primitive
//! type, built from `key -> type` declaration lines, with a per-key,
//! per-value validation check.

use vstd::prelude::*;
use crate::chars::spec_trim;
use crate::chars::trim;
use crate::chars::spec_split_arrow;
use crate::chars::split_arrow;
use crate::chars::spec_eq_ic;
use crate::chars::lemma_eq_ic_resp;
use crate::chars::eq_ignore_ascii_case;
use crate::chars::str_eq;
use crate::numbers::spec_is_i64;
use crate::numbers::is_i64_str;
use crate::numbers::spec_is_f64;
use crate::numbers::is_f64_str;

verus! {

/// The errors of schema construction and of validation. Both carry the
/// offending text: the unrecognized type token, or the full dotted key
/// whose value failed its declared type.
#[derive(Debug, PartialEq)]
pub enum SysctlConfSchemaError {
    InvalidValueType(String),
    UndefinedKey(String),
}

/// The primitive types a schema can declare.
#[derive(Debug, PartialEq, Eq, Structural, Clone, Copy)]
pub enum SysctlConfSchemaValueType {
    String,
    Bool,
    Integer,
    Float,
}

/// The declared type that a type token resolves to, insensitive to ASCII
/// case; any other token is rejected.
pub open spec fn spec_resolve_type(tok: Seq<char>) -> Option<SysctlConfSchemaValueType> {
    if spec_eq_ic(tok, "string"@) {
        Option::Some(SysctlConfSchemaValueType::String)
    } else if spec_eq_ic(tok, "bool"@) {
        Option::Some(SysctlConfSchemaValueType::Bool)
    } else if spec_eq_ic(tok, "integer"@) {
        Option::Some(SysctlConfSchemaValueType::Integer)
    } else if spec_eq_ic(tok, "float"@) {
        Option::Some(SysctlConfSchemaValueType::Float)
    } else {
        Option::None
    }
}

impl SysctlConfSchemaValueType {
    /// Resolves a type token, insensitive to ASCII case; an unrecognized
    /// token is an error carrying the token as written.
    pub fn try_from(value: &str) -> (r: Result<Self, SysctlConfSchemaError>)
        ensures
            match r {
                Ok(t) => spec_resolve_type(value@) == Option::Some(t),
                Err(e) => spec_resolve_type(value@) is None && (e matches
                    SysctlConfSchemaError::InvalidValueType(s) && s@ == value@),
            },
    {
        if eq_ignore_ascii_case(value, "string") {
            Ok(SysctlConfSchemaValueType::String)
        } else if eq_ignore_ascii_case(value, "bool") {
            Ok(SysctlConfSchemaValueType::Bool)
        } else if eq_ignore_ascii_case(value, "integer") {
            Ok(SysctlConfSchemaValueType::Integer)
        } else if eq_ignore_ascii_case(value, "float") {
            Ok(SysctlConfSchemaValueType::Float)
        } else {
            Err(SysctlConfSchemaError::InvalidValueType(value.to_owned()))
        }
    }
}

/// The registry that a sequence of schema entries denotes.
pub open spec fn schema_entries_view(s: Seq<(String, SysctlConfSchemaValueType)>) -> Map<
    Seq<char>,
    SysctlConfSchemaValueType,
>
    decreases s,
{
    if s.len() == 0 {
        Map::empty()
    } else {
        schema_entries_view(s.subrange(0, s.len() - 1)).insert(
            s[s.len() - 1].0@,
            s[s.len() - 1].1,
        )
    }
}

/// Schema entries are well-formed when their keys are pairwise distinct.
pub open spec fn schema_entries_wf(s: Seq<(String, SysctlConfSchemaValueType)>) -> bool {
    forall|i: int, j: int| 0 <= i < j < s.len() ==> s[i].0@ != s[j].0@
}

/// The defining equation of `schema_entries_view` on a non-empty sequence.
pub proof fn lemma_schema_view_unfold(s: Seq<(String, SysctlConfSchemaValueType)>)
    requires
        s.len() > 0,
    ensures
        schema_entries_view(s) == schema_entries_view(s.subrange(0, s.len() - 1)).insert(
            s[s.len() - 1].0@,
            s[s.len() - 1].1,
        ),
{
}

/// The denoted registry holds a key exactly when some entry carries it.
pub proof fn lemma_schema_view_contains(s: Seq<(String, SysctlConfSchemaValueType)>, k: Seq<char>)
    ensures
        schema_entries_view(s).contains_key(k) <==> exists|i: int|
            0 <= i < s.len() && s[i].0@ == k,
    decreases s.len(),
{
    if s.len() > 0 {
        let pre = s.subrange(0, s.len() - 1);
        let last = s.len() - 1;
        lemma_schema_view_unfold(s);
        lemma_schema_view_contains(pre, k);
        if schema_entries_view(s).contains_key(k) {
            if s[last].0@ == k {
                assert(0 <= last < s.len() && s[last].0@ == k);
            } else {
                let i = choose|i: int| 0 <= i < pre.len() && pre[i].0@ == k;
                assert(pre[i] == s[i]);
                assert(0 <= i < s.len() && s[i].0@ == k);
            }
        }
        if exists|i: int| 0 <= i < s.len() && s[i].0@ == k {
            let i = choose|i: int| 0 <= i < s.len() && s[i].0@ == k;
            if i == last {
                assert(schema_entries_view(s).contains_key(k));
            } else {
                assert(pre[i] == s[i]);
                assert(0 <= i < pre.len() && pre[i].0@ == k);
            }
        }
    }
}

/// With distinct keys, the denoted registry sends an entry's key to that
/// entry's type.
pub proof fn lemma_schema_view_at(s: Seq<(String, SysctlConfSchemaValueType)>, p: int)
    requires
        schema_entries_wf(s),
        0 <= p < s.len(),
    ensures
        schema_entries_view(s).contains_key(s[p].0@),
        schema_entries_view(s)[s[p].0@] == s[p].1,
    decreases s.len(),
{
    let pre = s.subrange(0, s.len() - 1);
    lemma_schema_view_unfold(s);
    if p == s.len() - 1 {
    } else {
        assert(s[p].0@ != s[s.len() - 1].0@);
        assert forall|i: int, j: int| 0 <= i < j < pre.len() implies pre[i].0@ != pre[j].0@ by {
            assert(pre[i] == s[i]);
            assert(pre[j] == s[j]);
        }
        lemma_schema_view_at(pre, p);
        assert(pre[p] == s[p]);
    }
}

/// Replacing the entry at `p` by one with the same key updates the denoted
/// registry at that key alone.
pub proof fn lemma_schema_view_update(
    s: Seq<(String, SysctlConfSchemaValueType)>,
    p: int,
    x: (String, SysctlConfSchemaValueType),
)
    requires
        schema_entries_wf(s),
        0 <= p < s.len(),
        x.0@ == s[p].0@,
    ensures
        schema_entries_view(s.update(p, x)) == schema_entries_view(s).insert(x.0@, x.1),
        schema_entries_wf(s.update(p, x)),
    decreases s.len(),
{
    let t = s.update(p, x);
    let pre = s.subrange(0, s.len() - 1);
    lemma_schema_view_unfold(s);
    lemma_schema_view_unfold(t);
    if p == s.len() - 1 {
        assert(t.subrange(0, t.len() - 1) =~= pre);
        assert(t[t.len() - 1] == x);
        assert(schema_entries_view(t) =~= schema_entries_view(s).insert(x.0@, x.1));
    } else {
        assert forall|i: int, j: int| 0 <= i < j < pre.len() implies pre[i].0@ != pre[j].0@ by {
            assert(pre[i] == s[i]);
            assert(pre[j] == s[j]);
        }
        assert(pre[p] == s[p]);
        lemma_schema_view_update(pre, p, x);
        assert(t.subrange(0, t.len() - 1) =~= pre.update(p, x));
        assert(t[t.len() - 1] == s[s.len() - 1]);
        assert(s[p].0@ != s[s.len() - 1].0@);
        assert(schema_entries_view(t) =~= schema_entries_view(s).insert(x.0@, x.1));
    }
}

/// Appending an entry inserts its key into the denoted registry.
pub proof fn lemma_schema_view_push(
    s: Seq<(String, SysctlConfSchemaValueType)>,
    x: (String, SysctlConfSchemaValueType),
)
    ensures
        schema_entries_view(s.push(x)) == schema_entries_view(s).insert(x.0@, x.1),
{
    let t = s.push(x);
    lemma_schema_view_unfold(t);
    assert(t.subrange(0, t.len() - 1) =~= s);
    assert(t[t.len() - 1] == x);
}

/// What one declaration line contributes: `None` when the line does not
/// split on `->` into exactly two parts (such lines are ignored), an error
/// carrying the trimmed token when the type fails to resolve, and the
/// trimmed key with its type otherwise.
pub open spec fn spec_schema_line(line: Seq<char>) -> Option<
    Result<(Seq<char>, SysctlConfSchemaValueType), Seq<char>>,
> {
    let parts = spec_split_arrow(line);
    if parts.len() != 2 {
        Option::None
    } else {
        let key = spec_trim(parts[0]);
        let tok = spec_trim(parts[1]);
        match spec_resolve_type(tok) {
            Option::Some(t) => Option::Some(Result::Ok((key, t))),
            Option::None => Option::Some(Result::Err(tok)),
        }
    }
}

/// The registry denoted by an ordered sequence of declaration lines: lines
/// fold in order, a later declaration for a key overwrites an earlier one,
/// and the first unresolvable type token aborts the whole construction with
/// that token.
pub open spec fn spec_schema_build(lines: Seq<Seq<char>>) -> Result<
    Map<Seq<char>, SysctlConfSchemaValueType>,
    Seq<char>,
>
    decreases lines.len(),
{
    if lines.len() == 0 {
        Result::Ok(Map::empty())
    } else {
        match spec_schema_build(lines.subrange(0, lines.len() - 1)) {
            Result::Err(e) => Result::Err(e),
            Result::Ok(m) => match spec_schema_line(lines[lines.len() - 1]) {
                Option::None => Result::Ok(m),
                Option::Some(Result::Err(tok)) => Result::Err(tok),
                Option::Some(Result::Ok(kt)) => Result::Ok(m.insert(kt.0, kt.1)),
            },
        }
    }
}

/// A failed prefix fails the whole construction with the same token.
pub proof fn lemma_schema_build_err_prefix(lines: Seq<Seq<char>>, k: int, tok: Seq<char>)
    requires
        0 <= k <= lines.len(),
        spec_schema_build(lines.subrange(0, k)) == Result::<
            Map<Seq<char>, SysctlConfSchemaValueType>,
            Seq<char>,
        >::Err(tok),
    ensures
        spec_schema_build(lines) == Result::<
            Map<Seq<char>, SysctlConfSchemaValueType>,
            Seq<char>,
        >::Err(tok),
    decreases lines.len() - k,
{
    if k == lines.len() {
        assert(lines.subrange(0, k) =~= lines);
    } else {
        let next = lines.subrange(0, k + 1);
        assert(next.subrange(0, k) =~= lines.subrange(0, k));
        assert(spec_schema_build(next) == Result::<
            Map<Seq<char>, SysctlConfSchemaValueType>,
            Seq<char>,
        >::Err(tok));
        lemma_schema_build_err_prefix(lines, k + 1, tok);
    }
}

/// The flat type registry of one schema: a vector of entries with pairwise
/// distinct keys.
#[derive(Debug, PartialEq)]
pub struct SysctlConfSchema(pub Vec<(String, SysctlConfSchemaValueType)>);

impl View for SysctlConfSchema {
    type V = Map<Seq<char>, SysctlConfSchemaValueType>;

    open spec fn view(&self) -> Map<Seq<char>, SysctlConfSchemaValueType> {
        schema_entries_view(self.0@)
    }
}

/// Position of the first entry carrying `key`, if any.
fn find_schema_entry(entries: &Vec<(String, SysctlConfSchemaValueType)>, key: &str) -> (r: Option<
    usize,
>)
    ensures
        match r {
            Some(p) => p < entries@.len() && entries@[p as int].0@ == key@,
            None => forall|i: int| 0 <= i < entries@.len() ==> entries@[i].0@ != key@,
        },
{
    let n = entries.len();
    let mut i: usize = 0;
    while i < n
        invariant
            i <= n,
            n == entries@.len(),
            forall|j: int| 0 <= j < i ==> entries@[j].0@ != key@,
        decreases n - i,
    {
        let pair: &(String, SysctlConfSchemaValueType) = &entries[i];
        if str_eq(pair.0.as_str(), key) {
            return Some(i);
        }
        i += 1;
    }
    None
}

impl SysctlConfSchema {
    /// Keys are pairwise distinct.
    pub open spec fn wf(self) -> bool {
        schema_entries_wf(self.0@)
    }

    /// Builds the registry from declaration lines, in order. A line that
    /// does not split on `->` into exactly two parts is ignored; the first
    /// unrecognized type token aborts the construction with an error
    /// carrying that token.
    pub fn new(schema_line_list: Vec<String>) -> (r: Result<Self, SysctlConfSchemaError>)
        ensures
            match r {
                Ok(s) => s.wf() && spec_schema_build(schema_line_list.deep_view())
                    == Result::<Map<Seq<char>, SysctlConfSchemaValueType>, Seq<char>>::Ok(s@),
                Err(e) => e matches SysctlConfSchemaError::InvalidValueType(t)
                    && spec_schema_build(schema_line_list.deep_view()) == Result::<
                    Map<Seq<char>, SysctlConfSchemaValueType>,
                    Seq<char>,
                >::Err(t@),
            },
    {
        let ghost l = schema_line_list.deep_view();
        let mut acc: Vec<(String, SysctlConfSchemaValueType)> = Vec::new();
        let n = schema_line_list.len();
        let mut li: usize = 0;
        proof {
            assert(l.subrange(0, 0) =~= Seq::<Seq<char>>::empty());
        }
        while li < n
            invariant
                li <= n,
                n == schema_line_list@.len(),
                l == schema_line_list.deep_view(),
                schema_entries_wf(acc@),
                spec_schema_build(l.subrange(0, li as int)) == Result::<
                    Map<Seq<char>, SysctlConfSchemaValueType>,
                    Seq<char>,
                >::Ok(schema_entries_view(acc@)),
            decreases n - li,
        {
            let ghost mprev = schema_entries_view(acc@);
            let line: &String = &schema_line_list[li];
            proof {
                assert(l[li as int] == schema_line_list@[li as int]@);
            }
            let parts = split_arrow(line.as_str());
            if parts.len() == 2 {
                let key = trim(parts[0].as_str());
                let tok = trim(parts[1].as_str());
                proof {
                    assert(parts.deep_view()[0] == parts@[0]@);
                    assert(parts.deep_view()[1] == parts@[1]@);
                    assert(key@ == spec_trim(spec_split_arrow(l[li as int])[0]));
                    assert(tok@ == spec_trim(spec_split_arrow(l[li as int])[1]));
                }
                match SysctlConfSchemaValueType::try_from(tok) {
                    Err(e) => {
                        proof {
                            assert(spec_schema_line(l[li as int]) == Option::Some(Result::<
                                (Seq<char>, SysctlConfSchemaValueType),
                                Seq<char>,
                            >::Err(tok@)));
                            assert(l.subrange(0, li + 1).subrange(0, li as int) =~= l.subrange(
                                0,
                                li as int,
                            ));
                            assert(l.subrange(0, li + 1)[li as int] == l[li as int]);
                            assert(spec_schema_build(l.subrange(0, li + 1)) == Result::<
                                Map<Seq<char>, SysctlConfSchemaValueType>,
                                Seq<char>,
                            >::Err(tok@));
                            lemma_schema_build_err_prefix(l, li + 1, tok@);
                        }
                        return Err(e);
                    },
                    Ok(t) => {
                        proof {
                            assert(spec_schema_line(l[li as int]) == Option::Some(Result::<
                                (Seq<char>, SysctlConfSchemaValueType),
                                Seq<char>,
                            >::Ok((key@, t))));
                        }
                        let kc = key.to_owned();
                        let newpair = (kc, t);
                        let ghost gx = newpair;
                        let ghost sacc = acc@;
                        match find_schema_entry(&acc, key) {
                            Some(p) => {
                                let _replaced = acc.remove(p);
                                acc.insert(p, newpair);
                                proof {
                                    assert(acc@ =~= sacc.update(p as int, gx));
                                    lemma_schema_view_update(sacc, p as int, gx);
                                }
                            },
                            None => {
                                acc.push(newpair);
                                proof {
                                    lemma_schema_view_push(sacc, gx);
                                    assert forall|i: int, j: int|
                                        0 <= i < j < acc@.len() implies acc@[i].0@
                                        != acc@[j].0@ by {
                                        if j == acc@.len() - 1 {
                                            assert(acc@[i] == sacc[i]);
                                            assert(sacc[i].0@ != key@);
                                        } else {
                                            assert(acc@[i] == sacc[i]);
                                            assert(acc@[j] == sacc[j]);
                                        }
                                    }
                                }
                            },
                        }
                        proof {
                            assert(schema_entries_view(acc@) == mprev.insert(key@, t));
                        }
                    },
                }
            } else {
                proof {
                    assert(spec_schema_line(l[li as int]) is None);
                }
            }
            proof {
                assert(l.subrange(0, li + 1).subrange(0, li as int) =~= l.subrange(0, li as int));
                assert(l.subrange(0, li + 1)[li as int] == l[li as int]);
                assert(spec_schema_build(l.subrange(0, li + 1)) == Result::<
                    Map<Seq<char>, SysctlConfSchemaValueType>,
                    Seq<char>,
                >::Ok(schema_entries_view(acc@)));
            }
            li += 1;
        }
        proof {
            assert(l.subrange(0, n as int) =~= l);
        }
        Ok(SysctlConfSchema(acc))
    }

    /// Checks one value string against the type declared for one key, as
    /// `spec_validate` describes; a failure carries the key.
    pub fn validate_value_type(&self, key: &str, value: &str) -> (r: Result<
        (),
        SysctlConfSchemaError,
    >)
        requires
            self.wf(),
        ensures
            r is Ok <==> spec_validate(self@, key@, value@),
            r matches Err(e) ==> (e matches SysctlConfSchemaError::InvalidValueType(k) && k@
                == key@),
    {
        match find_schema_entry(&self.0, key) {
            None => {
                proof {
                    lemma_schema_view_contains(self.0@, key@);
                }
                Ok(())
            },
            Some(p) => {
                proof {
                    lemma_schema_view_at(self.0@, p as int);
                }
                let pair: &(String, SysctlConfSchemaValueType) = &self.0[p];
                let accepted: bool = match pair.1 {
                    SysctlConfSchemaValueType::String => true,
                    SysctlConfSchemaValueType::Bool => str_eq(value, "true") || str_eq(
                        value,
                        "false",
                    ),
                    SysctlConfSchemaValueType::Integer => is_i64_str(value),
                    SysctlConfSchemaValueType::Float => is_f64_str(value),
                };
                if accepted {
                    Ok(())
                } else {
                    Err(SysctlConfSchemaError::InvalidValueType(key.to_owned()))
                }
            },
        }
    }
}

/// Whether a value string is acceptable for a declared type: anything for
/// `String`; exactly `true` or `false` for `Bool`; a decimal 64-bit signed
/// integer for `Integer`; a 64-bit floating-point literal for `Float`.
pub open spec fn spec_accepts(t: SysctlConfSchemaValueType, v: Seq<char>) -> bool {
    match t {
        SysctlConfSchemaValueType::String => true,
        SysctlConfSchemaValueType::Bool => v == "true"@ || v == "false"@,
        SysctlConfSchemaValueType::Integer => spec_is_i64(v),
        SysctlConfSchemaValueType::Float => spec_is_f64(v),
    }
}

/// Whether a key/value pair passes the schema: a key absent from the
/// registry is unconstrained, a declared key constrains its value.
pub open spec fn spec_validate(
    m: Map<Seq<char>, SysctlConfSchemaValueType>,
    key: Seq<char>,
    v: Seq<char>,
) -> bool {
    !m.contains_key(key) || spec_accepts(m[key], v)
}

/// Type resolution is insensitive to ASCII case: tokens equal up to case
/// resolve to the same declared type, so declarations differing only in the
/// case of their type token produce identical validators.
pub proof fn lemma_resolve_type_case_insensitive(a: Seq<char>, b: Seq<char>)
    requires
        spec_eq_ic(a, b),
    ensures
        spec_resolve_type(a) == spec_resolve_type(b),
{
    lemma_eq_ic_resp(a, b, "string"@);
    lemma_eq_ic_resp(a, b, "bool"@);
    lemma_eq_ic_resp(a, b, "integer"@);
    lemma_eq_ic_resp(a, b, "float"@);
}

/// A key absent from the registry is unconstrained: any value for it
/// passes validation.
pub proof fn lemma_unknown_key_accepted(
    m: Map<Seq<char>, SysctlConfSchemaValueType>,
    key: Seq<char>,
    v: Seq<char>,
)
    requires
        !m.contains_key(key),
    ensures
        spec_validate(m, key, v),
{
}

} // verus!
