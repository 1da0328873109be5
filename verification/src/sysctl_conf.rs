//! The configuration tree: an ordered sequence of raw lines folded into a
//! nested mapping. Dotted keys walk or create inner nodes; the final segment
//! becomes a leaf holding the value text. A later leaf for the same full key
//! overwrites the earlier one, and a leaf already on the path silently blocks
//! any attempt to descend through it.

use vstd::prelude::*;
use crate::chars::spec_trim;
use crate::chars::spec_is_ws;
use crate::chars::lemma_trim_stable_ends;
use crate::chars::lemma_trim_of_stable;
use crate::chars::lemma_first_index_of;
use crate::chars::lemma_spec_split_len;
use crate::chars::trim;
use crate::chars::first_index_of;
use crate::chars::find_first;
use crate::chars::spec_split;
use crate::chars::split_char;
use crate::chars::str_eq;

verus! {

/// A node of the configuration tree: either a terminal string value, or a
/// mapping from segment names to further values, kept as a vector of
/// entries with pairwise distinct keys.
#[derive(Debug, PartialEq)]
pub enum Value {
    Leaf(String),
    Node(Vec<(String, Value)>),
}

/// The mathematical shape of a `Value`: leaves are character sequences,
/// inner nodes are order-free mappings from segment name to subtree.
pub enum SpecValue {
    Leaf(Seq<char>),
    Node(Map<Seq<char>, SpecValue>),
}

/// The mapping that a sequence of entries denotes: a later entry for the
/// same key would win, though well-formed entry sequences have no two
/// entries with the same key.
pub open spec fn entries_view(s: Seq<(String, Value)>) -> Map<Seq<char>, SpecValue>
    decreases s,
{
    if s.len() == 0 {
        Map::empty()
    } else {
        entries_view(s.subrange(0, s.len() - 1)).insert(
            s[s.len() - 1].0@,
            s[s.len() - 1].1@,
        )
    }
}

impl View for Value {
    type V = SpecValue;

    open spec fn view(&self) -> SpecValue
        decreases self,
    {
        match self {
            Value::Leaf(s) => SpecValue::Leaf(s@),
            Value::Node(entries) => SpecValue::Node(entries_view(entries@)),
        }
    }
}

/// Entry sequences are well-formed when keys at each level are pairwise
/// distinct, recursively through the tree.
pub open spec fn entries_wf(s: Seq<(String, Value)>) -> bool
    decreases s,
{
    if s.len() == 0 {
        true
    } else {
        &&& entries_wf(s.subrange(0, s.len() - 1))
        &&& value_wf(s[s.len() - 1].1)
        &&& forall|i: int| 0 <= i < s.len() - 1 ==> (#[trigger] s[i]).0@ != s[s.len() - 1].0@
    }
}

pub open spec fn value_wf(v: Value) -> bool
    decreases v,
{
    match v {
        Value::Leaf(_) => true,
        Value::Node(entries) => entries_wf(entries@),
    }
}

/// The defining equation of `entries_view` on a non-empty sequence, stated
/// for use inside other proofs.
pub proof fn lemma_entries_view_unfold(s: Seq<(String, Value)>)
    requires
        s.len() > 0,
    ensures
        entries_view(s) == entries_view(s.subrange(0, s.len() - 1)).insert(
            s[s.len() - 1].0@,
            s[s.len() - 1].1@,
        ),
{
}

/// Well-formedness spelled out entry by entry: distinct keys, well-formed
/// subtrees.
pub proof fn lemma_entries_wf_facts(s: Seq<(String, Value)>)
    requires
        entries_wf(s),
    ensures
        forall|i: int, j: int| 0 <= i < j < s.len() ==> s[i].0@ != s[j].0@,
        forall|i: int| 0 <= i < s.len() ==> value_wf(#[trigger] s[i].1),
    decreases s.len(),
{
    if s.len() > 0 {
        let pre = s.subrange(0, s.len() - 1);
        lemma_entries_wf_facts(pre);
        assert forall|i: int, j: int| 0 <= i < j < s.len() implies s[i].0@ != s[j].0@ by {
            if j < s.len() - 1 {
                assert(pre[i].0@ != pre[j].0@);
            }
        }
        assert forall|i: int| 0 <= i < s.len() implies value_wf(#[trigger] s[i].1) by {
            if i < s.len() - 1 {
                assert(value_wf(pre[i].1));
            }
        }
    }
}

/// The denoted mapping holds a key exactly when some entry carries it.
pub proof fn lemma_entries_view_contains(s: Seq<(String, Value)>, k: Seq<char>)
    ensures
        entries_view(s).contains_key(k) <==> exists|i: int| 0 <= i < s.len() && s[i].0@ == k,
    decreases s.len(),
{
    if s.len() > 0 {
        let pre = s.subrange(0, s.len() - 1);
        let last = s.len() - 1;
        lemma_entries_view_unfold(s);
        lemma_entries_view_contains(pre, k);
        if entries_view(s).contains_key(k) {
            if s[last].0@ == k {
                assert(0 <= last < s.len() && s[last].0@ == k);
            } else {
                assert(entries_view(pre).contains_key(k));
                let i = choose|i: int| 0 <= i < pre.len() && pre[i].0@ == k;
                assert(pre[i] == s[i]);
                assert(0 <= i < s.len() && s[i].0@ == k);
            }
        }
        if exists|i: int| 0 <= i < s.len() && s[i].0@ == k {
            let i = choose|i: int| 0 <= i < s.len() && s[i].0@ == k;
            if i == last {
                assert(entries_view(s).contains_key(k));
            } else {
                assert(pre[i] == s[i]);
                assert(0 <= i < pre.len() && pre[i].0@ == k);
                assert(entries_view(pre).contains_key(k));
            }
        }
    }
}

/// With distinct keys, the denoted mapping sends an entry's key to the view
/// of that entry's subtree.
pub proof fn lemma_entries_view_at(s: Seq<(String, Value)>, p: int)
    requires
        forall|i: int, j: int| 0 <= i < j < s.len() ==> s[i].0@ != s[j].0@,
        0 <= p < s.len(),
    ensures
        entries_view(s).contains_key(s[p].0@),
        entries_view(s)[s[p].0@] == s[p].1@,
    decreases s.len(),
{
    let pre = s.subrange(0, s.len() - 1);
    lemma_entries_view_unfold(s);
    if p == s.len() - 1 {
    } else {
        assert(s[p].0@ != s[s.len() - 1].0@);
        assert forall|i: int, j: int| 0 <= i < j < pre.len() implies pre[i].0@ != pre[j].0@ by {
            assert(pre[i] == s[i]);
            assert(pre[j] == s[j]);
        }
        lemma_entries_view_at(pre, p);
        assert(pre[p] == s[p]);
    }
}

/// Replacing the entry at `p` by one with the same key updates the denoted
/// mapping at that key alone.
pub proof fn lemma_entries_view_update(s: Seq<(String, Value)>, p: int, x: (String, Value))
    requires
        forall|i: int, j: int| 0 <= i < j < s.len() ==> s[i].0@ != s[j].0@,
        0 <= p < s.len(),
        x.0@ == s[p].0@,
    ensures
        entries_view(s.update(p, x)) == entries_view(s).insert(x.0@, x.1@),
    decreases s.len(),
{
    let t = s.update(p, x);
    let pre = s.subrange(0, s.len() - 1);
    lemma_entries_view_unfold(s);
    lemma_entries_view_unfold(t);
    if p == s.len() - 1 {
        assert(t.subrange(0, t.len() - 1) =~= pre);
        assert(t[t.len() - 1] == x);
        assert(entries_view(t) =~= entries_view(s).insert(x.0@, x.1@));
    } else {
        assert forall|i: int, j: int| 0 <= i < j < pre.len() implies pre[i].0@ != pre[j].0@ by {
            assert(pre[i] == s[i]);
            assert(pre[j] == s[j]);
        }
        assert(pre[p] == s[p]);
        lemma_entries_view_update(pre, p, x);
        assert(t.subrange(0, t.len() - 1) =~= pre.update(p, x));
        assert(t[t.len() - 1] == s[s.len() - 1]);
        assert(s[p].0@ != s[s.len() - 1].0@);
        assert(entries_view(t) =~= entries_view(s).insert(x.0@, x.1@));
    }
}

/// Appending an entry inserts its key into the denoted mapping.
pub proof fn lemma_entries_view_push(s: Seq<(String, Value)>, x: (String, Value))
    ensures
        entries_view(s.push(x)) == entries_view(s).insert(x.0@, x.1@),
{
    let t = s.push(x);
    lemma_entries_view_unfold(t);
    assert(t.subrange(0, t.len() - 1) =~= s);
    assert(t[t.len() - 1] == x);
}

/// Replacing an entry by one with the same key and a well-formed subtree
/// keeps the sequence well-formed.
pub proof fn lemma_entries_wf_update(s: Seq<(String, Value)>, p: int, x: (String, Value))
    requires
        entries_wf(s),
        0 <= p < s.len(),
        x.0@ == s[p].0@,
        value_wf(x.1),
    ensures
        entries_wf(s.update(p, x)),
    decreases s.len(),
{
    let t = s.update(p, x);
    let pre = s.subrange(0, s.len() - 1);
    if p == s.len() - 1 {
        assert(t.subrange(0, t.len() - 1) =~= pre);
        assert(t[t.len() - 1] == x);
    } else {
        assert(pre[p] == s[p]);
        lemma_entries_wf_update(pre, p, x);
        assert(t.subrange(0, t.len() - 1) =~= pre.update(p, x));
        assert(t[t.len() - 1] == s[s.len() - 1]);
        assert forall|i: int| 0 <= i < t.len() - 1 implies (#[trigger] t[i]).0@ != t[t.len()
            - 1].0@ by {
            if i == p {
                assert(s[p].0@ != s[s.len() - 1].0@);
            } else {
                assert(t[i] == s[i]);
                assert(s[i].0@ != s[s.len() - 1].0@);
            }
        }
    }
}

/// Appending an entry with a fresh key and a well-formed subtree keeps the
/// sequence well-formed.
pub proof fn lemma_entries_wf_push(s: Seq<(String, Value)>, x: (String, Value))
    requires
        entries_wf(s),
        forall|i: int| 0 <= i < s.len() ==> s[i].0@ != x.0@,
        value_wf(x.1),
    ensures
        entries_wf(s.push(x)),
{
    let t = s.push(x);
    assert(t.subrange(0, t.len() - 1) =~= s);
    assert(t[t.len() - 1] == x);
}

/// One insertion of dotted-key segments with a value into a mapping: inner
/// nodes are walked or created for every segment but the last, the last
/// segment becomes a leaf, and a leaf met along the way discards the
/// insertion.
pub open spec fn spec_insert(
    m: Map<Seq<char>, SpecValue>,
    segs: Seq<Seq<char>>,
    value: Seq<char>,
) -> Map<Seq<char>, SpecValue>
    decreases segs.len(),
{
    if segs.len() == 0 {
        m
    } else if segs.len() == 1 {
        m.insert(segs[0], SpecValue::Leaf(value))
    } else {
        let sub = if m.contains_key(segs[0]) {
            m[segs[0]]
        } else {
            SpecValue::Node(Map::empty())
        };
        match sub {
            SpecValue::Leaf(_) => m,
            SpecValue::Node(sm) => m.insert(
                segs[0],
                SpecValue::Node(spec_insert(sm, segs.subrange(1, segs.len() as int), value)),
            ),
        }
    }
}

/// Lookup of dotted-key segments in a mapping: the walk must consume every
/// segment and end exactly on a leaf.
pub open spec fn spec_lookup(m: Map<Seq<char>, SpecValue>, segs: Seq<Seq<char>>) -> Option<
    Seq<char>,
>
    decreases segs.len(),
{
    if segs.len() == 0 {
        Option::None
    } else if !m.contains_key(segs[0]) {
        Option::None
    } else {
        match m[segs[0]] {
            SpecValue::Leaf(v) => if segs.len() == 1 {
                Option::Some(v)
            } else {
                Option::None
            },
            SpecValue::Node(sm) => if segs.len() == 1 {
                Option::None
            } else {
                spec_lookup(sm, segs.subrange(1, segs.len() as int))
            },
        }
    }
}

/// What one raw line carries: `None` for a blank or comment line, otherwise
/// the full dotted key and the value. A line without `=` is a bare key with
/// the empty value; otherwise the line is cut at its first `=` and both
/// sides are trimmed.
pub open spec fn spec_line_key_value(line: Seq<char>) -> Option<(Seq<char>, Seq<char>)> {
    let t = spec_trim(line);
    if t.len() == 0 || t[0] == '#' {
        Option::None
    } else {
        let e = first_index_of(t, '=');
        if e == -1 {
            Option::Some((t, Seq::empty()))
        } else {
            let rawk = spec_trim(t.subrange(0, e));
            let v = spec_trim(t.subrange(e + 1, t.len() as int));
            Option::Some((rawk, v))
        }
    }
}

/// What one raw line contributes to the tree: the key's `.`-separated
/// segments with the value.
pub open spec fn spec_line_fields(line: Seq<char>) -> Option<(Seq<Seq<char>>, Seq<char>)> {
    match spec_line_key_value(line) {
        Option::None => Option::None,
        Option::Some(kv) => Option::Some((spec_split(kv.0, '.'), kv.1)),
    }
}

pub open spec fn spec_apply_line(
    m: Map<Seq<char>, SpecValue>,
    line: Seq<char>,
) -> Map<Seq<char>, SpecValue> {
    match spec_line_fields(line) {
        Option::None => m,
        Option::Some(kv) => spec_insert(m, kv.0, kv.1),
    }
}

/// The mapping denoted by an ordered sequence of raw configuration lines,
/// folded in order.
pub open spec fn spec_build(lines: Seq<Seq<char>>) -> Map<Seq<char>, SpecValue>
    decreases lines.len(),
{
    if lines.len() == 0 {
        Map::empty()
    } else {
        spec_apply_line(spec_build(lines.subrange(0, lines.len() - 1)), lines[lines.len() - 1])
    }
}

/// Position of the first entry carrying `key`, if any.
fn find_entry(entries: &Vec<(String, Value)>, key: &String) -> (r: Option<usize>)
    ensures
        match r {
            Some(p) => p < entries@.len() && entries@[p as int].0@ == key@,
            None => forall|i: int| 0 <= i < entries@.len() ==> entries@[i].0@ != key@,
        },
{
    let n = entries.len();
    let mut i: usize = 0;
    while i < n
        invariant
            i <= n,
            n == entries@.len(),
            forall|j: int| 0 <= j < i ==> entries@[j].0@ != key@,
        decreases n - i,
    {
        let pair: &(String, Value) = &entries[i];
        if str_eq(pair.0.as_str(), key.as_str()) {
            return Some(i);
        }
        i += 1;
    }
    None
}

/// Inserts the segments `segs[from..]` with `value` into an entry sequence,
/// as `spec_insert` describes.
pub(crate) fn insert_into_entries(
    entries: Vec<(String, Value)>,
    segs: &Vec<String>,
    from: usize,
    value: String,
) -> (res: Vec<(String, Value)>)
    requires
        entries_wf(entries@),
        from < segs@.len(),
    ensures
        entries_wf(res@),
        entries_view(res@) == spec_insert(
            entries_view(entries@),
            segs.deep_view().subrange(from as int, segs.deep_view().len() as int),
            value@,
        ),
    decreases segs@.len() - from,
{
    let ghost s0 = entries@;
    let ghost m0 = entries_view(entries@);
    let ghost tl = segs.deep_view().subrange(from as int, segs.deep_view().len() as int);
    let ghost v0 = value@;
    proof {
        assert(tl.len() == segs@.len() - from);
        assert(tl[0] == segs@[from as int]@);
        lemma_entries_wf_facts(s0);
    }
    let mut entries = entries;
    let nsegs = segs.len();
    let key: &String = &segs[from];
    let pos = find_entry(&entries, key);
    if from + 1 == nsegs {
        proof {
            assert(tl.len() == 1);
            assert(spec_insert(m0, tl, v0) == m0.insert(tl[0], SpecValue::Leaf(v0)));
        }
        match pos {
            Some(p) => {
                let kc = key.clone();
                let newpair = (kc, Value::Leaf(value));
                let ghost gx = newpair;
                let _replaced = entries.remove(p);
                entries.insert(p, newpair);
                proof {
                    assert(gx.1@ == SpecValue::Leaf(v0));
                    assert(entries@ =~= s0.update(p as int, gx));
                    lemma_entries_view_update(s0, p as int, gx);
                    lemma_entries_wf_update(s0, p as int, gx);
                }
                entries
            },
            None => {
                let kc = key.clone();
                let newpair = (kc, Value::Leaf(value));
                let ghost gx = newpair;
                entries.push(newpair);
                proof {
                    assert(gx.1@ == SpecValue::Leaf(v0));
                    lemma_entries_view_push(s0, gx);
                    lemma_entries_wf_push(s0, gx);
                }
                entries
            },
        }
    } else {
        proof {
            assert(tl.len() >= 2);
            assert(tl.subrange(1, tl.len() as int) =~= segs.deep_view().subrange(
                from + 1,
                segs.deep_view().len() as int,
            ));
        }
        match pos {
            Some(p) => {
                proof {
                    lemma_entries_view_at(s0, p as int);
                }
                let removed = entries.remove(p);
                let (k0, v0x) = removed;
                match v0x {
                    Value::Leaf(_) => {
                        proof {
                            assert(m0[tl[0]] == s0[p as int].1@);
                            assert(m0[tl[0]] is Leaf);
                            assert(spec_insert(m0, tl, v0) == m0);
                        }
                        entries.insert(p, (k0, v0x));
                        proof {
                            assert(entries@ =~= s0);
                        }
                        entries
                    },
                    Value::Node(sub) => {
                        let ghost gsub = sub@;
                        proof {
                            assert(s0[p as int].1 == Value::Node(sub));
                            assert(s0[p as int].1@ == SpecValue::Node(entries_view(gsub)));
                            assert(value_wf(s0[p as int].1));
                        }
                        let sub2 = insert_into_entries(sub, segs, from + 1, value);
                        let newpair = (k0, Value::Node(sub2));
                        let ghost gx = newpair;
                        entries.insert(p, newpair);
                        proof {
                            assert(gx.0@ == s0[p as int].0@);
                            assert(gx.1@ == SpecValue::Node(
                                spec_insert(entries_view(gsub), tl.subrange(1, tl.len() as int), v0),
                            ));
                            assert(entries@ =~= s0.update(p as int, gx));
                            lemma_entries_view_update(s0, p as int, gx);
                            lemma_entries_wf_update(s0, p as int, gx);
                            assert(spec_insert(m0, tl, v0) == m0.insert(
                                tl[0],
                                SpecValue::Node(
                                    spec_insert(
                                        entries_view(gsub),
                                        tl.subrange(1, tl.len() as int),
                                        v0,
                                    ),
                                ),
                            ));
                        }
                        entries
                    },
                }
            },
            None => {
                proof {
                    lemma_entries_view_contains(s0, tl[0]);
                    assert(!m0.contains_key(tl[0]));
                }
                let empty_sub: Vec<(String, Value)> = Vec::new();
                proof {
                    assert(entries_view(empty_sub@) == Map::<Seq<char>, SpecValue>::empty());
                }
                let sub2 = insert_into_entries(empty_sub, segs, from + 1, value);
                let kc = key.clone();
                let newpair = (kc, Value::Node(sub2));
                let ghost gx = newpair;
                entries.push(newpair);
                proof {
                    assert(gx.1@ == SpecValue::Node(
                        spec_insert(
                            Map::<Seq<char>, SpecValue>::empty(),
                            tl.subrange(1, tl.len() as int),
                            v0,
                        ),
                    ));
                    lemma_entries_view_push(s0, gx);
                    lemma_entries_wf_push(s0, gx);
                    assert(spec_insert(m0, tl, v0) == m0.insert(
                        tl[0],
                        SpecValue::Node(
                            spec_insert(
                                Map::<Seq<char>, SpecValue>::empty(),
                                tl.subrange(1, tl.len() as int),
                                v0,
                            ),
                        ),
                    ));
                }
                entries
            },
        }
    }
}

/// Lookup of `segs[from..]` in an entry sequence, as `spec_lookup`
/// describes.
fn get_from_entries<'a>(
    entries: &'a Vec<(String, Value)>,
    segs: &Vec<String>,
    from: usize,
) -> (r: Option<&'a String>)
    requires
        entries_wf(entries@),
        from < segs@.len(),
    ensures
        ({
            let tl = segs.deep_view().subrange(from as int, segs.deep_view().len() as int);
            match r {
                Some(v) => spec_lookup(entries_view(entries@), tl) == Option::Some(v@),
                None => spec_lookup(entries_view(entries@), tl) is None,
            }
        }),
    decreases segs@.len() - from,
{
    let ghost s0 = entries@;
    let ghost m0 = entries_view(entries@);
    let ghost tl = segs.deep_view().subrange(from as int, segs.deep_view().len() as int);
    proof {
        assert(tl.len() == segs@.len() - from);
        assert(tl[0] == segs@[from as int]@);
        lemma_entries_wf_facts(s0);
    }
    let nsegs = segs.len();
    let key: &String = &segs[from];
    match find_entry(entries, key) {
        None => {
            proof {
                lemma_entries_view_contains(s0, tl[0]);
                assert(!m0.contains_key(tl[0]));
            }
            None
        },
        Some(p) => {
            proof {
                lemma_entries_view_at(s0, p as int);
            }
            let pair: &(String, Value) = &entries[p];
            if from + 1 == nsegs {
                proof {
                    assert(tl.len() == 1);
                }
                match &pair.1 {
                    Value::Leaf(sv) => {
                        proof {
                            assert(m0[tl[0]] == SpecValue::Leaf(sv@));
                        }
                        Some(sv)
                    },
                    Value::Node(sub) => {
                        proof {
                            assert(m0[tl[0]] == SpecValue::Node(entries_view(sub@)));
                        }
                        None
                    },
                }
            } else {
                proof {
                    assert(tl.len() >= 2);
                }
                match &pair.1 {
                    Value::Leaf(sv) => {
                        proof {
                            assert(m0[tl[0]] == SpecValue::Leaf(sv@));
                        }
                        None
                    },
                    Value::Node(sub) => {
                        proof {
                            assert(m0[tl[0]] == SpecValue::Node(entries_view(sub@)));
                            assert(value_wf(s0[p as int].1));
                            assert(entries_wf(sub@));
                            assert(tl.subrange(1, tl.len() as int) =~= segs.deep_view().subrange(
                                from + 1,
                                segs.deep_view().len() as int,
                            ));
                        }
                        get_from_entries(sub, segs, from + 1)
                    },
                }
            }
        },
    }
}

/// The root of one parse run: a nested mapping built from raw lines.
#[derive(Debug, PartialEq)]
pub struct SysctlConf(pub Vec<(String, Value)>);

impl View for SysctlConf {
    type V = Map<Seq<char>, SpecValue>;

    open spec fn view(&self) -> Map<Seq<char>, SpecValue> {
        entries_view(self.0@)
    }
}

impl SysctlConf {
    /// Keys are pairwise distinct at every level of the tree.
    pub open spec fn wf(self) -> bool {
        entries_wf(self.0@)
    }

    /// Folds the raw lines, in order, into a configuration tree. Blank and
    /// `#`-comment lines are skipped; a line without `=` is a bare key with
    /// the empty value; otherwise the line is cut at its first `=` and both
    /// sides are trimmed, and the key's `.`-separated segments descend into
    /// the tree.
    pub fn new(lines: Vec<String>) -> (r: Self)
        ensures
            r.wf(),
            r@ == spec_build(lines.deep_view()),
    {
        let ghost l = lines.deep_view();
        let mut map: Vec<(String, Value)> = Vec::new();
        let n = lines.len();
        let mut li: usize = 0;
        proof {
            assert(l.subrange(0, 0) =~= Seq::<Seq<char>>::empty());
            assert(spec_build(l.subrange(0, 0)) == Map::<Seq<char>, SpecValue>::empty());
        }
        while li < n
            invariant
                li <= n,
                n == lines@.len(),
                l == lines.deep_view(),
                entries_wf(map@),
                entries_view(map@) == spec_build(l.subrange(0, li as int)),
            decreases n - li,
        {
            let ghost mprev = entries_view(map@);
            let line: &String = &lines[li];
            proof {
                assert(l[li as int] == lines@[li as int]@);
            }
            let t = trim(line.as_str());
            let tn = t.unicode_len();
            if tn == 0 {
                proof {
                    assert(spec_line_fields(l[li as int]) is None);
                }
            } else if t.get_char(0) == '#' {
                proof {
                    assert(spec_line_fields(l[li as int]) is None);
                }
            } else {
                match find_first(t, '=') {
                    Some(e) => {
                        let rawk = trim(t.substring_char(0, e));
                        let segs = split_char(rawk, '.');
                        let vt = trim(t.substring_char(e + 1, tn)).to_owned();
                        let ghost gv = vt@;
                        proof {
                            assert(spec_line_fields(l[li as int]) == Option::Some(
                                (spec_split(rawk@, '.'), gv),
                            ));
                            assert(segs.deep_view().subrange(
                                0,
                                segs.deep_view().len() as int,
                            ) =~= segs.deep_view());
                        }
                        map = insert_into_entries(map, &segs, 0, vt);
                        proof {
                            assert(entries_view(map@) == spec_apply_line(mprev, l[li as int]));
                        }
                    },
                    None => {
                        let segs = split_char(t, '.');
                        let vt = String::new();
                        proof {
                            assert(spec_line_fields(l[li as int]) == Option::Some(
                                (spec_split(t@, '.'), Seq::<char>::empty()),
                            ));
                            assert(segs.deep_view().subrange(
                                0,
                                segs.deep_view().len() as int,
                            ) =~= segs.deep_view());
                        }
                        map = insert_into_entries(map, &segs, 0, vt);
                        proof {
                            assert(entries_view(map@) == spec_apply_line(mprev, l[li as int]));
                        }
                    },
                }
            }
            proof {
                assert(l.subrange(0, li + 1).subrange(0, li as int) =~= l.subrange(0, li as int));
                assert(l.subrange(0, li + 1)[li as int] == l[li as int]);
                assert(spec_build(l.subrange(0, li + 1)) == spec_apply_line(
                    spec_build(l.subrange(0, li as int)),
                    l[li as int],
                ));
            }
            li += 1;
        }
        proof {
            assert(l.subrange(0, n as int) =~= l);
        }
        SysctlConf(map)
    }

    /// Looks a full dotted key up: the walk over the key's `.`-separated
    /// segments must consume every segment and end exactly on a leaf.
    pub fn get<'a>(&'a self, key: &str) -> (r: Option<&'a String>)
        requires
            self.wf(),
        ensures
            match r {
                Some(v) => spec_lookup(self@, spec_split(key@, '.')) == Option::Some(v@),
                None => spec_lookup(self@, spec_split(key@, '.')) is None,
            },
    {
        let segs = split_char(key, '.');
        proof {
            assert(segs.deep_view().subrange(0, segs.deep_view().len() as int) =~= segs.deep_view());
        }
        get_from_entries(&self.0, &segs, 0)
    }
}

/// Inserting a path into the empty mapping and looking the same path up
/// finds the inserted value.
pub proof fn lemma_insert_empty_lookup(segs: Seq<Seq<char>>, value: Seq<char>)
    requires
        segs.len() >= 1,
    ensures
        spec_lookup(
            spec_insert(Map::<Seq<char>, SpecValue>::empty(), segs, value),
            segs,
        ) == Option::Some(value),
    decreases segs.len(),
{
    let m = Map::<Seq<char>, SpecValue>::empty();
    if segs.len() == 1 {
        assert(spec_insert(m, segs, value) == m.insert(segs[0], SpecValue::Leaf(value)));
    } else {
        let rest = segs.subrange(1, segs.len() as int);
        lemma_insert_empty_lookup(rest, value);
        let sub = spec_insert(m, rest, value);
        assert(spec_insert(m, segs, value) == m.insert(segs[0], SpecValue::Node(sub)));
    }
}

/// One `key=value` line on its own round-trips: building a configuration
/// from it and looking the key up returns the value. The key must be
/// non-empty, both sides must be free of `=`, `#` and line breaks, and
/// neither may carry leading or trailing whitespace, which building would
/// trim away.
pub proof fn lemma_single_line_round_trip(k: Seq<char>, v: Seq<char>)
    requires
        k.len() > 0,
        spec_trim(k) == k,
        spec_trim(v) == v,
        forall|i: int| 0 <= i < k.len() ==> k[i] != '=' && k[i] != '#' && k[i] != '\n',
        forall|i: int| 0 <= i < v.len() ==> v[i] != '=' && v[i] != '#' && v[i] != '\n',
    ensures
        spec_lookup(spec_build(seq![k + seq!['='] + v]), spec_split(k, '.')) == Option::Some(v),
{
    let line = k + seq!['='] + v;
    let lines = seq![line];
    assert(lines.subrange(0, 0) =~= Seq::<Seq<char>>::empty());
    assert(spec_build(lines) == spec_apply_line(
        spec_build(lines.subrange(0, 0)),
        line,
    ));
    assert(spec_build(lines.subrange(0, 0)) == Map::<Seq<char>, SpecValue>::empty());

    lemma_trim_stable_ends(k);
    assert(line[0] == k[0]);
    assert(line[line.len() - 1] == if v.len() > 0 { v[v.len() - 1] } else { '=' });
    if v.len() > 0 {
        lemma_trim_stable_ends(v);
    }
    assert(!spec_is_ws('='));
    lemma_trim_of_stable(line);
    assert(spec_trim(line) == line);

    assert(line[k.len() as int] == '=');
    lemma_first_index_of(line, '=');
    let e = first_index_of(line, '=');
    assert(e != -1);
    assert(e <= k.len());
    if e < k.len() {
        assert(line[e] == k[e]);
        assert(false);
    }
    assert(e == k.len());

    assert(line.subrange(0, e) =~= k);
    assert(line.subrange(e + 1, line.len() as int) =~= v);
    assert(line[0] != '#');
    assert(spec_line_key_value(line) == Option::Some((k, v)));
    assert(spec_line_fields(line) == Option::Some((spec_split(k, '.'), v)));
    assert(spec_build(lines) == spec_insert(
        Map::<Seq<char>, SpecValue>::empty(),
        spec_split(k, '.'),
        v,
    ));
    lemma_spec_split_len(k, '.');
    lemma_insert_empty_lookup(spec_split(k, '.'), v);
}

/// Blank lines and comment lines contribute nothing: folding one in leaves
/// the mapping unchanged, whatever whitespace surrounds it.
pub proof fn lemma_skipped_line(m: Map<Seq<char>, SpecValue>, line: Seq<char>)
    requires
        spec_trim(line).len() == 0 || spec_trim(line)[0] == '#',
    ensures
        spec_apply_line(m, line) == m,
{
}

/// Building is a pure function of the line sequence: two trees built from
/// the same lines are structurally equal.
pub proof fn lemma_build_idempotent(c1: SysctlConf, c2: SysctlConf, lines: Seq<Seq<char>>)
    requires
        c1@ == spec_build(lines),
        c2@ == spec_build(lines),
    ensures
        c1@ == c2@,
{
}

/// Inserting the same path twice keeps only the later value: the general
/// form of last-write-wins. A path blocked by a leaf is discarded both
/// times, so the equation holds for blocked paths too.
pub proof fn lemma_insert_twice_last_wins(
    m: Map<Seq<char>, SpecValue>,
    segs: Seq<Seq<char>>,
    v1: Seq<char>,
    v2: Seq<char>,
)
    requires
        segs.len() >= 1,
    ensures
        spec_insert(spec_insert(m, segs, v1), segs, v2) == spec_insert(m, segs, v2),
    decreases segs.len(),
{
    let m1 = spec_insert(m, segs, v1);
    if segs.len() == 1 {
        assert(spec_insert(m1, segs, v2) =~= spec_insert(m, segs, v2));
    } else {
        let k = segs[0];
        let rest = segs.subrange(1, segs.len() as int);
        if m.contains_key(k) {
            match m[k] {
                SpecValue::Leaf(_) => {
                    assert(m1 == m);
                },
                SpecValue::Node(sm) => {
                    let sub1 = spec_insert(sm, rest, v1);
                    assert(m1 == m.insert(k, SpecValue::Node(sub1)));
                    lemma_insert_twice_last_wins(sm, rest, v1, v2);
                    assert(spec_insert(m1, segs, v2) == m1.insert(
                        k,
                        SpecValue::Node(spec_insert(sub1, rest, v2)),
                    ));
                    assert(spec_insert(m1, segs, v2) =~= spec_insert(m, segs, v2));
                },
            }
        } else {
            let sub1 = spec_insert(Map::<Seq<char>, SpecValue>::empty(), rest, v1);
            assert(m1 == m.insert(k, SpecValue::Node(sub1)));
            lemma_insert_twice_last_wins(Map::<Seq<char>, SpecValue>::empty(), rest, v1, v2);
            assert(spec_insert(m1, segs, v2) == m1.insert(
                k,
                SpecValue::Node(spec_insert(sub1, rest, v2)),
            ));
            assert(spec_insert(m1, segs, v2) =~= spec_insert(m, segs, v2));
        }
    }
}

/// A leaf on the path blocks descent: when looking a path up finds a leaf,
/// an insertion along any strict extension of that path is silently
/// discarded and the mapping stands unchanged.
pub proof fn lemma_leaf_blocks_insert(
    m: Map<Seq<char>, SpecValue>,
    p: Seq<Seq<char>>,
    ext: Seq<Seq<char>>,
    v: Seq<char>,
    leaf: Seq<char>,
)
    requires
        p.len() >= 1,
        ext.len() >= 1,
        spec_lookup(m, p) == Option::Some(leaf),
    ensures
        spec_insert(m, p + ext, v) == m,
    decreases p.len(),
{
    let segs = p + ext;
    assert(segs.len() == p.len() + ext.len());
    assert(segs[0] == p[0]);
    assert(m.contains_key(p[0]));
    if p.len() == 1 {
        assert(m[p[0]] is Leaf);
        assert(spec_insert(m, segs, v) == m);
    } else {
        match m[p[0]] {
            SpecValue::Leaf(_) => {
                assert(spec_lookup(m, p) is None);
            },
            SpecValue::Node(sm) => {
                let prest = p.subrange(1, p.len() as int);
                assert(spec_lookup(sm, prest) == Option::Some(leaf));
                lemma_leaf_blocks_insert(sm, prest, ext, v, leaf);
                assert(segs.subrange(1, segs.len() as int) =~= prest + ext);
                assert(spec_insert(m, segs, v) == m.insert(
                    segs[0],
                    SpecValue::Node(spec_insert(sm, prest + ext, v)),
                ));
                assert(m.insert(p[0], SpecValue::Node(sm)) =~= m);
            },
        }
    }
}

} // verus!
