//! A parser for flat, line-oriented configuration text in dotted-key
//! notation. Raw lines fold into a nested mapping; an optional schema of
//! `key -> type` declarations validates each value before it is folded in,
//! and the first mismatch aborts the whole parse.

use vstd::prelude::*;

mod chars;
mod numbers;
pub mod sysctl_conf;
pub mod sysctl_conf_schema;

pub use crate::sysctl_conf::SysctlConf;
pub use crate::sysctl_conf::Value;
pub use crate::sysctl_conf_schema::SysctlConfSchema;
pub use crate::sysctl_conf_schema::SysctlConfSchemaError;
pub use crate::sysctl_conf_schema::SysctlConfSchemaValueType;

use crate::chars::find_first;
use crate::chars::spec_split;
use crate::chars::split_char;
use crate::chars::trim;
use crate::sysctl_conf::entries_view;
use crate::sysctl_conf::entries_wf;
use crate::sysctl_conf::insert_into_entries;
use crate::sysctl_conf::spec_apply_line;
use crate::sysctl_conf::spec_build;
use crate::sysctl_conf::spec_line_fields;
use crate::sysctl_conf::spec_line_key_value;
use crate::sysctl_conf::SpecValue;
use crate::sysctl_conf_schema::spec_schema_build;
use crate::sysctl_conf_schema::spec_validate;

verus! {

/// The full dotted key of the first configuration line whose value fails
/// its declared type, if any: the line where a schema-aware parse stops.
pub open spec fn spec_first_invalid(
    m: Map<Seq<char>, SysctlConfSchemaValueType>,
    lines: Seq<Seq<char>>,
) -> Option<Seq<char>>
    decreases lines.len(),
{
    if lines.len() == 0 {
        Option::None
    } else {
        match spec_first_invalid(m, lines.subrange(0, lines.len() - 1)) {
            Option::Some(k) => Option::Some(k),
            Option::None => match spec_line_key_value(lines[lines.len() - 1]) {
                Option::None => Option::None,
                Option::Some(kv) => if spec_validate(m, kv.0, kv.1) {
                    Option::None
                } else {
                    Option::Some(kv.0)
                },
            },
        }
    }
}

/// A failing prefix decides the whole sequence's first invalid key.
proof fn lemma_first_invalid_prefix(
    m: Map<Seq<char>, SysctlConfSchemaValueType>,
    lines: Seq<Seq<char>>,
    k: int,
    key: Seq<char>,
)
    requires
        0 <= k <= lines.len(),
        spec_first_invalid(m, lines.subrange(0, k)) == Option::Some(key),
    ensures
        spec_first_invalid(m, lines) == Option::Some(key),
    decreases lines.len() - k,
{
    if k == lines.len() {
        assert(lines.subrange(0, k) =~= lines);
    } else {
        let next = lines.subrange(0, k + 1);
        assert(next.subrange(0, k) =~= lines.subrange(0, k));
        assert(spec_first_invalid(m, next) == Option::Some(key));
        lemma_first_invalid_prefix(m, lines, k + 1, key);
    }
}

/// The schema-aware parse: builds the schema first, then folds the
/// configuration lines in order, validating every key/value pair against
/// the schema before it is folded in. The first unrecognized type token,
/// or the first value that fails its declared type, aborts the whole parse
/// with an error carrying that token or that full dotted key; no partial
/// tree is returned.
pub fn parse_sysctl_from_lines(config_lines: Vec<String>, schema_lines: Vec<String>) -> (r: Result<
    SysctlConf,
    SysctlConfSchemaError,
>)
    ensures
        match spec_schema_build(schema_lines.deep_view()) {
            Result::Err(tok) => r matches Err(e) && (e matches
                SysctlConfSchemaError::InvalidValueType(t) && t@ == tok),
            Result::Ok(m) => match spec_first_invalid(m, config_lines.deep_view()) {
                Option::Some(k) => r matches Err(e) && (e matches
                    SysctlConfSchemaError::InvalidValueType(t) && t@ == k),
                Option::None => r matches Ok(c) && c.wf() && c@ == spec_build(
                    config_lines.deep_view(),
                ),
            },
        },
{
    let schema = match SysctlConfSchema::new(schema_lines) {
        Err(e) => {
            return Err(e);
        },
        Ok(s) => s,
    };
    let ghost m = schema@;
    let ghost l = config_lines.deep_view();
    let mut map: Vec<(String, Value)> = Vec::new();
    let n = config_lines.len();
    let mut li: usize = 0;
    proof {
        assert(l.subrange(0, 0) =~= Seq::<Seq<char>>::empty());
        assert(spec_build(l.subrange(0, 0)) == Map::<Seq<char>, SpecValue>::empty());
        assert(spec_first_invalid(m, l.subrange(0, 0)) is None);
    }
    while li < n
        invariant
            li <= n,
            n == config_lines@.len(),
            l == config_lines.deep_view(),
            schema.wf(),
            m == schema@,
            spec_schema_build(schema_lines.deep_view()) == Result::<
                Map<Seq<char>, SysctlConfSchemaValueType>,
                Seq<char>,
            >::Ok(m),
            entries_wf(map@),
            entries_view(map@) == spec_build(l.subrange(0, li as int)),
            spec_first_invalid(m, l.subrange(0, li as int)) is None,
        decreases n - li,
    {
        let ghost mprev = entries_view(map@);
        let line: &String = &config_lines[li];
        proof {
            assert(l[li as int] == config_lines@[li as int]@);
        }
        let t = trim(line.as_str());
        let tn = t.unicode_len();
        if tn == 0 {
            proof {
                assert(spec_line_key_value(l[li as int]) is None);
            }
        } else if t.get_char(0) == '#' {
            proof {
                assert(spec_line_key_value(l[li as int]) is None);
            }
        } else {
            match find_first(t, '=') {
                Some(e) => {
                    let rawk = trim(t.substring_char(0, e));
                    let vs = trim(t.substring_char(e + 1, tn));
                    proof {
                        assert(spec_line_key_value(l[li as int]) == Option::Some((rawk@, vs@)));
                    }
                    match schema.validate_value_type(rawk, vs) {
                        Err(err) => {
                            proof {
                                assert(l.subrange(0, li + 1).subrange(0, li as int) =~= l.subrange(
                                    0,
                                    li as int,
                                ));
                                assert(l.subrange(0, li + 1)[li as int] == l[li as int]);
                                assert(spec_first_invalid(m, l.subrange(0, li + 1)) == Option::Some(
                                    rawk@,
                                ));
                                lemma_first_invalid_prefix(m, l, li + 1, rawk@);
                            }
                            return Err(err);
                        },
                        Ok(_) => {
                            let segs = split_char(rawk, '.');
                            let vt = vs.to_owned();
                            proof {
                                assert(spec_line_fields(l[li as int]) == Option::Some(
                                    (spec_split(rawk@, '.'), vt@),
                                ));
                                assert(segs.deep_view().subrange(
                                    0,
                                    segs.deep_view().len() as int,
                                ) =~= segs.deep_view());
                            }
                            map = insert_into_entries(map, &segs, 0, vt);
                            proof {
                                assert(entries_view(map@) == spec_apply_line(mprev, l[li as int]));
                            }
                        },
                    }
                },
                None => {
                    let empty_value = String::new();
                    proof {
                        assert(spec_line_key_value(l[li as int]) == Option::Some(
                            (t@, empty_value@),
                        ));
                    }
                    match schema.validate_value_type(t, empty_value.as_str()) {
                        Err(err) => {
                            proof {
                                assert(l.subrange(0, li + 1).subrange(0, li as int) =~= l.subrange(
                                    0,
                                    li as int,
                                ));
                                assert(l.subrange(0, li + 1)[li as int] == l[li as int]);
                                assert(spec_first_invalid(m, l.subrange(0, li + 1)) == Option::Some(
                                    t@,
                                ));
                                lemma_first_invalid_prefix(m, l, li + 1, t@);
                            }
                            return Err(err);
                        },
                        Ok(_) => {
                            let segs = split_char(t, '.');
                            proof {
                                assert(spec_line_fields(l[li as int]) == Option::Some(
                                    (spec_split(t@, '.'), Seq::<char>::empty()),
                                ));
                                assert(segs.deep_view().subrange(
                                    0,
                                    segs.deep_view().len() as int,
                                ) =~= segs.deep_view());
                            }
                            map = insert_into_entries(map, &segs, 0, empty_value);
                            proof {
                                assert(entries_view(map@) == spec_apply_line(mprev, l[li as int]));
                            }
                        },
                    }
                },
            }
        }
        proof {
            assert(l.subrange(0, li + 1).subrange(0, li as int) =~= l.subrange(0, li as int));
            assert(l.subrange(0, li + 1)[li as int] == l[li as int]);
            assert(spec_build(l.subrange(0, li + 1)) == spec_apply_line(
                spec_build(l.subrange(0, li as int)),
                l[li as int],
            ));
            assert(spec_first_invalid(m, l.subrange(0, li + 1)) is None);
        }
        li += 1;
    }
    proof {
        assert(l.subrange(0, n as int) =~= l);
    }
    Ok(SysctlConf(map))
}

} // verus!
