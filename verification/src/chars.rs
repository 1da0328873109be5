//! Character-level text utilities: whitespace trimming, searching for a
//! separator, splitting on a separator, and ASCII-case-insensitive comparison.
//! Everything is specified over `Seq<char>` views.

use vstd::prelude::*;

verus! {

/// The Unicode `White_Space` characters: the set that trimming removes.
pub open spec fn spec_is_ws(c: char) -> bool {
    c == '\u{0009}' || c == '\u{000A}' || c == '\u{000B}' || c == '\u{000C}' || c == '\u{000D}'
        || c == '\u{0020}' || c == '\u{0085}' || c == '\u{00A0}' || c == '\u{1680}'
        || c == '\u{2000}' || c == '\u{2001}' || c == '\u{2002}' || c == '\u{2003}'
        || c == '\u{2004}' || c == '\u{2005}' || c == '\u{2006}' || c == '\u{2007}'
        || c == '\u{2008}' || c == '\u{2009}' || c == '\u{200A}' || c == '\u{2028}'
        || c == '\u{2029}' || c == '\u{202F}' || c == '\u{205F}' || c == '\u{3000}'
}

pub fn is_ws(c: char) -> (r: bool)
    ensures
        r == spec_is_ws(c),
{
    c == '\u{0009}' || c == '\u{000A}' || c == '\u{000B}' || c == '\u{000C}' || c == '\u{000D}'
        || c == '\u{0020}' || c == '\u{0085}' || c == '\u{00A0}' || c == '\u{1680}'
        || c == '\u{2000}' || c == '\u{2001}' || c == '\u{2002}' || c == '\u{2003}'
        || c == '\u{2004}' || c == '\u{2005}' || c == '\u{2006}' || c == '\u{2007}'
        || c == '\u{2008}' || c == '\u{2009}' || c == '\u{200A}' || c == '\u{2028}'
        || c == '\u{2029}' || c == '\u{202F}' || c == '\u{205F}' || c == '\u{3000}'
}

/// The sequence with leading whitespace removed.
pub open spec fn spec_trim_start(s: Seq<char>) -> Seq<char>
    decreases s.len(),
{
    if s.len() > 0 && spec_is_ws(s[0]) {
        spec_trim_start(s.subrange(1, s.len() as int))
    } else {
        s
    }
}

/// The sequence with trailing whitespace removed.
pub open spec fn spec_trim_end(s: Seq<char>) -> Seq<char>
    decreases s.len(),
{
    if s.len() > 0 && spec_is_ws(s[s.len() - 1]) {
        spec_trim_end(s.subrange(0, s.len() - 1))
    } else {
        s
    }
}

/// The sequence with both leading and trailing whitespace removed.
pub open spec fn spec_trim(s: Seq<char>) -> Seq<char> {
    spec_trim_end(spec_trim_start(s))
}

fn trim_start<'a>(s: &'a str) -> (r: &'a str)
    ensures
        r@ == spec_trim_start(s@),
    decreases s@.len(),
{
    let n = s.unicode_len();
    if n > 0 && is_ws(s.get_char(0)) {
        trim_start(s.substring_char(1, n))
    } else {
        s
    }
}

fn trim_end<'a>(s: &'a str) -> (r: &'a str)
    ensures
        r@ == spec_trim_end(s@),
    decreases s@.len(),
{
    let n = s.unicode_len();
    if n > 0 && is_ws(s.get_char(n - 1)) {
        trim_end(s.substring_char(0, n - 1))
    } else {
        s
    }
}

/// Removes leading and trailing whitespace, as the configuration format asks
/// of every raw line, key and value.
pub fn trim<'a>(s: &'a str) -> (r: &'a str)
    ensures
        r@ == spec_trim(s@),
{
    trim_end(trim_start(s))
}

/// Index of the first occurrence of `c` in `s`, or `-1` if `c` does not occur.
pub open spec fn first_index_of(s: Seq<char>, c: char) -> int
    decreases s.len(),
{
    if s.len() == 0 {
        -1
    } else if s[0] == c {
        0
    } else {
        let r = first_index_of(s.subrange(1, s.len() as int), c);
        if r == -1 {
            -1
        } else {
            r + 1
        }
    }
}

/// `first_index_of` is either `-1` with no occurrence at all, or the least
/// index holding `c`.
pub proof fn lemma_first_index_of(s: Seq<char>, c: char)
    ensures
        first_index_of(s, c) == -1 ==> forall|i: int| 0 <= i < s.len() ==> s[i] != c,
        first_index_of(s, c) != -1 ==> {
            let r = first_index_of(s, c);
            &&& 0 <= r < s.len()
            &&& s[r] == c
            &&& forall|i: int| 0 <= i < r ==> s[i] != c
        },
    decreases s.len(),
{
    if s.len() == 0 {
    } else if s[0] == c {
    } else {
        let tail = s.subrange(1, s.len() as int);
        lemma_first_index_of(tail, c);
        assert forall|i: int| 1 <= i < s.len() implies s[i] == tail[i - 1] by {}
    }
}

pub fn find_first(s: &str, c: char) -> (r: Option<usize>)
    ensures
        match r {
            Some(i) => first_index_of(s@, c) == i as int && i < s@.len(),
            None => first_index_of(s@, c) == -1,
        },
    decreases s@.len(),
{
    let n = s.unicode_len();
    if n == 0 {
        None
    } else if s.get_char(0) == c {
        Some(0)
    } else {
        match find_first(s.substring_char(1, n), c) {
            None => None,
            Some(i) => Some(i + 1),
        }
    }
}

/// The pieces of `s` between occurrences of the separator `sep`, in order.
/// A sequence with no separator is one piece; every separator starts a new
/// (possibly empty) piece, so the result always holds at least one piece.
pub open spec fn spec_split(s: Seq<char>, sep: char) -> Seq<Seq<char>>
    decreases s.len(),
{
    if s.len() == 0 {
        seq![Seq::<char>::empty()]
    } else if s[0] == sep {
        seq![Seq::<char>::empty()] + spec_split(s.subrange(1, s.len() as int), sep)
    } else {
        let rest = spec_split(s.subrange(1, s.len() as int), sep);
        seq![seq![s[0]] + rest[0]] + rest.subrange(1, rest.len() as int)
    }
}

pub proof fn lemma_spec_split_len(s: Seq<char>, sep: char)
    ensures
        spec_split(s, sep).len() >= 1,
    decreases s.len(),
{
    if s.len() == 0 {
    } else {
        lemma_spec_split_len(s.subrange(1, s.len() as int), sep);
    }
}

/// `spec_split` jumps over its first piece whole: the head-by-head recursion
/// agrees with cutting at the first separator.
pub proof fn lemma_spec_split_step(s: Seq<char>, sep: char)
    ensures
        first_index_of(s, sep) == -1 ==> spec_split(s, sep) == seq![s],
        first_index_of(s, sep) != -1 ==> {
            let i = first_index_of(s, sep);
            spec_split(s, sep) == seq![s.subrange(0, i)] + spec_split(
                s.subrange(i + 1, s.len() as int),
                sep,
            )
        },
    decreases s.len(),
{
    lemma_first_index_of(s, sep);
    if s.len() == 0 {
        assert(spec_split(s, sep) =~~= seq![s]);
    } else if s[0] == sep {
        lemma_spec_split_len(s.subrange(1, s.len() as int), sep);
        assert(s.subrange(0, 0) =~= Seq::<char>::empty());
        assert(spec_split(s, sep) =~= seq![s.subrange(0, 0)] + spec_split(
            s.subrange(1, s.len() as int),
            sep,
        ));
    } else {
        let tail = s.subrange(1, s.len() as int);
        lemma_spec_split_step(tail, sep);
        lemma_first_index_of(tail, sep);
        if first_index_of(s, sep) == -1 {
            assert(spec_split(tail, sep) == seq![tail]);
            assert(seq![s[0]] + tail =~= s);
            assert(spec_split(s, sep) =~~= seq![s]);
        } else {
            let i = first_index_of(s, sep);
            let j = first_index_of(tail, sep);
            assert(j == i - 1);
            assert(seq![s[0]] + tail.subrange(0, j) =~= s.subrange(0, i));
            assert(tail.subrange(j + 1, tail.len() as int) =~= s.subrange(i + 1, s.len() as int));
            let rest = spec_split(tail, sep);
            lemma_spec_split_len(tail.subrange(j + 1, tail.len() as int), sep);
            assert(rest == seq![tail.subrange(0, j)] + spec_split(
                tail.subrange(j + 1, tail.len() as int),
                sep,
            ));
            assert(rest.subrange(1, rest.len() as int) =~= spec_split(
                tail.subrange(j + 1, tail.len() as int),
                sep,
            ));
            assert(spec_split(s, sep) =~~= seq![s.subrange(0, i)] + spec_split(
                s.subrange(i + 1, s.len() as int),
                sep,
            ));
        }
    }
}

/// Splits `s` at every occurrence of `sep`.
pub fn split_char(s: &str, sep: char) -> (r: Vec<String>)
    ensures
        r.deep_view() == spec_split(s@, sep),
        r@.len() >= 1,
    decreases s@.len(),
{
    proof {
        lemma_spec_split_step(s@, sep);
    }
    let n = s.unicode_len();
    match find_first(s, sep) {
        None => {
            let mut r: Vec<String> = Vec::new();
            r.push(s.to_owned());
            proof {
                assert(r.deep_view() =~= seq![s@]);
            }
            r
        },
        Some(i) => {
            let head = s.substring_char(0, i).to_owned();
            let mut rest = split_char(s.substring_char(i + 1, n), sep);
            rest.insert(0, head);
            proof {
                assert(rest.deep_view() =~= seq![s@.subrange(0, i as int)] + spec_split(
                    s@.subrange(i + 1, s@.len() as int),
                    sep,
                ));
            }
            rest
        },
    }
}

pub open spec fn spec_is_ascii_upper(c: char) -> bool {
    65 <= c as u32 <= 90
}

/// Two characters are the same letter up to ASCII case.
pub open spec fn spec_eq_ic_char(a: char, b: char) -> bool {
    a == b || (spec_is_ascii_upper(a) && a as u32 + 32 == b as u32) || (spec_is_ascii_upper(b)
        && b as u32 + 32 == a as u32)
}

/// Two character sequences are equal up to ASCII case.
pub open spec fn spec_eq_ic(a: Seq<char>, b: Seq<char>) -> bool {
    a.len() == b.len() && forall|i: int| 0 <= i < a.len() ==> spec_eq_ic_char(a[i], b[i])
}

fn eq_ic_char(a: char, b: char) -> (r: bool)
    ensures
        r == spec_eq_ic_char(a, b),
{
    let x = a as u32;
    let y = b as u32;
    a == b || (65 <= x && x <= 90 && x + 32 == y) || (65 <= y && y <= 90 && y + 32 == x)
}

/// Compares two strings up to ASCII case.
pub fn eq_ignore_ascii_case(a: &str, b: &str) -> (r: bool)
    ensures
        r == spec_eq_ic(a@, b@),
{
    let na = a.unicode_len();
    let nb = b.unicode_len();
    if na != nb {
        return false;
    }
    let mut i: usize = 0;
    while i < na
        invariant
            i <= na,
            na == a@.len(),
            na == b@.len(),
            forall|j: int| 0 <= j < i ==> spec_eq_ic_char(a@[j], b@[j]),
        decreases na - i,
    {
        if !eq_ic_char(a.get_char(i), b.get_char(i)) {
            return false;
        }
        i += 1;
    }
    true
}

/// Exact character-for-character string equality.
pub fn str_eq(a: &str, b: &str) -> (r: bool)
    ensures
        r == (a@ == b@),
{
    let na = a.unicode_len();
    let nb = b.unicode_len();
    if na != nb {
        return false;
    }
    let mut i: usize = 0;
    while i < na
        invariant
            i <= na,
            na == a@.len(),
            na == b@.len(),
            forall|j: int| 0 <= j < i ==> a@[j] == b@[j],
        decreases na - i,
    {
        if a.get_char(i) != b.get_char(i) {
            return false;
        }
        i += 1;
    }
    proof {
        assert(a@ =~= b@);
    }
    true
}

pub proof fn lemma_trim_start_len(s: Seq<char>)
    ensures
        spec_trim_start(s).len() <= s.len(),
    decreases s.len(),
{
    if s.len() > 0 && spec_is_ws(s[0]) {
        lemma_trim_start_len(s.subrange(1, s.len() as int));
    }
}

pub proof fn lemma_trim_end_len(s: Seq<char>)
    ensures
        spec_trim_end(s).len() <= s.len(),
    decreases s.len(),
{
    if s.len() > 0 && spec_is_ws(s[s.len() - 1]) {
        lemma_trim_end_len(s.subrange(0, s.len() - 1));
    }
}

/// A non-empty sequence that trimming leaves unchanged neither starts nor
/// ends with whitespace.
pub proof fn lemma_trim_stable_ends(s: Seq<char>)
    requires
        spec_trim(s) == s,
        s.len() > 0,
    ensures
        !spec_is_ws(s[0]),
        !spec_is_ws(s[s.len() - 1]),
{
    if spec_is_ws(s[0]) {
        let tail = s.subrange(1, s.len() as int);
        lemma_trim_start_len(tail);
        lemma_trim_end_len(spec_trim_start(tail));
        assert(spec_trim(s).len() < s.len());
    }
    assert(spec_trim_start(s) == s);
    if spec_is_ws(s[s.len() - 1]) {
        let pre = s.subrange(0, s.len() - 1);
        lemma_trim_end_len(pre);
        assert(spec_trim(s).len() < s.len());
    }
}

/// A sequence whose first and last characters are not whitespace is left
/// unchanged by trimming.
pub proof fn lemma_trim_of_stable(s: Seq<char>)
    requires
        s.len() > 0,
        !spec_is_ws(s[0]),
        !spec_is_ws(s[s.len() - 1]),
    ensures
        spec_trim(s) == s,
{
    assert(spec_trim_start(s) == s);
    assert(spec_trim_end(s) == s);
}

/// A character that equals `a` up to ASCII case equals `b` up to ASCII case
/// exactly when `a` and `b` are the same letter up to ASCII case.
pub proof fn lemma_eq_ic_char_resp(a: char, b: char, c: char)
    requires
        spec_eq_ic_char(a, b),
    ensures
        spec_eq_ic_char(a, c) == spec_eq_ic_char(b, c),
{
}

/// Sequences equal up to ASCII case agree on which sequences they equal up
/// to ASCII case.
pub proof fn lemma_eq_ic_resp(a: Seq<char>, b: Seq<char>, c: Seq<char>)
    requires
        spec_eq_ic(a, b),
    ensures
        spec_eq_ic(a, c) == spec_eq_ic(b, c),
{
    if a.len() == c.len() {
        assert forall|i: int| 0 <= i < a.len() implies spec_eq_ic_char(a[i], c[i])
            == spec_eq_ic_char(b[i], c[i]) by {
            lemma_eq_ic_char_resp(a[i], b[i], c[i]);
        }
    }
}

/// Whether the two-character separator `->` stands at position `i` of `s`.
pub open spec fn spec_arrow_at(s: Seq<char>, i: int) -> bool {
    0 <= i && i + 1 < s.len() && s[i] == '-' && s[i + 1] == '>'
}

/// Index of the first occurrence of `->` in `s`, or `-1` if there is none.
pub open spec fn first_arrow_of(s: Seq<char>) -> int
    decreases s.len(),
{
    if s.len() >= 2 && s[0] == '-' && s[1] == '>' {
        0
    } else if s.len() == 0 {
        -1
    } else {
        let r = first_arrow_of(s.subrange(1, s.len() as int));
        if r == -1 {
            -1
        } else {
            r + 1
        }
    }
}

pub proof fn lemma_first_arrow_of(s: Seq<char>)
    ensures
        first_arrow_of(s) == -1 ==> forall|i: int| !spec_arrow_at(s, i),
        first_arrow_of(s) != -1 ==> {
            let r = first_arrow_of(s);
            &&& spec_arrow_at(s, r)
            &&& forall|i: int| 0 <= i < r ==> !spec_arrow_at(s, i)
        },
    decreases s.len(),
{
    if s.len() >= 2 && s[0] == '-' && s[1] == '>' {
    } else if s.len() == 0 {
    } else {
        let tail = s.subrange(1, s.len() as int);
        lemma_first_arrow_of(tail);
        assert forall|i: int| 1 <= i && i + 1 < s.len() implies spec_arrow_at(s, i)
            == spec_arrow_at(tail, i - 1) by {}
        if first_arrow_of(s) == -1 {
            assert forall|i: int| !spec_arrow_at(s, i) by {
                if 1 <= i && i + 1 < s.len() {
                    assert(!spec_arrow_at(tail, i - 1));
                }
            }
        }
    }
}

/// The pieces of `s` between the non-overlapping, left-to-right occurrences
/// of `->`, in order: the schema format's separator.
pub open spec fn spec_split_arrow(s: Seq<char>) -> Seq<Seq<char>>
    decreases s.len(),
{
    if s.len() >= 2 && s[0] == '-' && s[1] == '>' {
        seq![Seq::<char>::empty()] + spec_split_arrow(s.subrange(2, s.len() as int))
    } else if s.len() == 0 {
        seq![Seq::<char>::empty()]
    } else {
        let rest = spec_split_arrow(s.subrange(1, s.len() as int));
        seq![seq![s[0]] + rest[0]] + rest.subrange(1, rest.len() as int)
    }
}

pub proof fn lemma_spec_split_arrow_len(s: Seq<char>)
    ensures
        spec_split_arrow(s).len() >= 1,
    decreases s.len(),
{
    if s.len() >= 2 && s[0] == '-' && s[1] == '>' {
        lemma_spec_split_arrow_len(s.subrange(2, s.len() as int));
    } else if s.len() == 0 {
    } else {
        lemma_spec_split_arrow_len(s.subrange(1, s.len() as int));
    }
}

/// `spec_split_arrow` jumps over its first piece whole: the head-by-head
/// recursion agrees with cutting at the first `->`.
pub proof fn lemma_spec_split_arrow_step(s: Seq<char>)
    ensures
        first_arrow_of(s) == -1 ==> spec_split_arrow(s) == seq![s],
        first_arrow_of(s) != -1 ==> {
            let i = first_arrow_of(s);
            spec_split_arrow(s) == seq![s.subrange(0, i)] + spec_split_arrow(
                s.subrange(i + 2, s.len() as int),
            )
        },
    decreases s.len(),
{
    lemma_first_arrow_of(s);
    if s.len() >= 2 && s[0] == '-' && s[1] == '>' {
        lemma_spec_split_arrow_len(s.subrange(2, s.len() as int));
        assert(s.subrange(0, 0) =~= Seq::<char>::empty());
        assert(spec_split_arrow(s) =~= seq![s.subrange(0, 0)] + spec_split_arrow(
            s.subrange(2, s.len() as int),
        ));
    } else if s.len() == 0 {
        assert(spec_split_arrow(s) =~~= seq![s]);
    } else {
        let tail = s.subrange(1, s.len() as int);
        lemma_spec_split_arrow_step(tail);
        lemma_first_arrow_of(tail);
        assert forall|i: int| 1 <= i && i + 1 < s.len() implies spec_arrow_at(s, i)
            == spec_arrow_at(tail, i - 1) by {}
        if first_arrow_of(s) == -1 {
            if first_arrow_of(tail) != -1 {
                assert(spec_arrow_at(tail, first_arrow_of(tail)));
                assert(spec_arrow_at(s, first_arrow_of(tail) + 1));
                assert(first_arrow_of(s) != -1);
            }
            assert(spec_split_arrow(tail) == seq![tail]);
            assert(seq![s[0]] + tail =~= s);
            assert(spec_split_arrow(s) =~~= seq![s]);
        } else {
            let i = first_arrow_of(s);
            assert(i >= 1);
            let j = first_arrow_of(tail);
            if j == -1 {
                assert(!spec_arrow_at(tail, i - 1));
                assert(false);
            }
            assert(spec_arrow_at(s, j + 1));
            assert forall|k: int| 0 <= k < j implies !spec_arrow_at(tail, k) by {
                assert(!spec_arrow_at(s, k + 1));
            }
            assert(j == i - 1);
            assert(seq![s[0]] + tail.subrange(0, j) =~= s.subrange(0, i));
            assert(tail.subrange(j + 2, tail.len() as int) =~= s.subrange(i + 2, s.len() as int));
            let rest = spec_split_arrow(tail);
            lemma_spec_split_arrow_len(tail.subrange(j + 2, tail.len() as int));
            assert(rest == seq![tail.subrange(0, j)] + spec_split_arrow(
                tail.subrange(j + 2, tail.len() as int),
            ));
            assert(rest.subrange(1, rest.len() as int) =~= spec_split_arrow(
                tail.subrange(j + 2, tail.len() as int),
            ));
            assert(spec_split_arrow(s) =~~= seq![s.subrange(0, i)] + spec_split_arrow(
                s.subrange(i + 2, s.len() as int),
            ));
        }
    }
}

fn find_arrow(s: &str) -> (r: Option<usize>)
    ensures
        match r {
            Some(i) => first_arrow_of(s@) == i as int && i + 2 <= s@.len(),
            None => first_arrow_of(s@) == -1,
        },
    decreases s@.len(),
{
    let n = s.unicode_len();
    if n >= 2 && s.get_char(0) == '-' && s.get_char(1) == '>' {
        Some(0)
    } else if n == 0 {
        None
    } else {
        match find_arrow(s.substring_char(1, n)) {
            None => None,
            Some(i) => Some(i + 1),
        }
    }
}

/// Splits `s` at every occurrence of the schema separator `->`.
pub fn split_arrow(s: &str) -> (r: Vec<String>)
    ensures
        r.deep_view() == spec_split_arrow(s@),
        r@.len() >= 1,
    decreases s@.len(),
{
    proof {
        lemma_spec_split_arrow_step(s@);
    }
    let n = s.unicode_len();
    match find_arrow(s) {
        None => {
            let mut r: Vec<String> = Vec::new();
            r.push(s.to_owned());
            proof {
                assert(r.deep_view() =~= seq![s@]);
            }
            r
        },
        Some(i) => {
            let head = s.substring_char(0, i).to_owned();
            let mut rest = split_arrow(s.substring_char(i + 2, n));
            rest.insert(0, head);
            proof {
                assert(rest.deep_view() =~= seq![s@.subrange(0, i as int)] + spec_split_arrow(
                    s@.subrange(i + 2, s@.len() as int),
                ));
            }
            rest
        },
    }
}

} // verus!
