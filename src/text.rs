//! Text primitives on `&str`: trimming, splitting on a separator, and the
//! character sequence of a string.
use vstd::prelude::*;

verus! {

/// Unicode `White_Space`, the property that `char::is_whitespace` tests.
pub open spec fn is_white(c: char) -> bool {
    let v = c as u32;
    (0x09 <= v && v <= 0x0d) || v == 0x20 || v == 0x85 || v == 0xa0 || v == 0x1680 || (0x2000
        <= v && v <= 0x200a) || v == 0x2028 || v == 0x2029 || v == 0x202f || v == 0x205f || v
        == 0x3000
}

pub open spec fn trim_start(s: Seq<char>) -> Seq<char>
    decreases s.len(),
{
    if s.len() > 0 && is_white(s[0]) {
        trim_start(s.drop_first())
    } else {
        s
    }
}

pub open spec fn trim_end(s: Seq<char>) -> Seq<char>
    decreases s.len(),
{
    if s.len() > 0 && is_white(s.last()) {
        trim_end(s.drop_last())
    } else {
        s
    }
}

/// `s` without its leading and trailing white space.
pub open spec fn trimmed(s: Seq<char>) -> Seq<char> {
    trim_end(trim_start(s))
}

/// The pieces of `s` between occurrences of `sep`, in order; there is always one
/// more piece than there are separators.
pub open spec fn split_on(s: Seq<char>, sep: char) -> Seq<Seq<char>>
    decreases s.len(),
{
    if s.len() == 0 {
        seq![Seq::<char>::empty()]
    } else {
        let rest = split_on(s.drop_first(), sep);
        if s[0] == sep {
            seq![Seq::<char>::empty()] + rest
        } else {
            rest.update(0, seq![s[0]] + rest[0])
        }
    }
}

/// Each separator takes a character, so there are at most one more pieces
/// than characters.
pub proof fn lemma_split_on_bound(s: Seq<char>, sep: char)
    ensures
        1 <= split_on(s, sep).len() <= s.len() + 1,
    decreases s.len(),
{
    if s.len() > 0 {
        lemma_split_on_bound(s.drop_first(), sep);
    }
}

/// A piece without separator splits into itself alone.
pub proof fn lemma_split_on_plain(s: Seq<char>, sep: char)
    requires
        !s.contains(sep),
    ensures
        split_on(s, sep) == seq![s],
    decreases s.len(),
{
    if s.len() > 0 {
        let t = s.drop_first();
        assert(!t.contains(sep)) by {
            if t.contains(sep) {
                let k = choose|k: int| 0 <= k < t.len() && t[k] == sep;
                assert(s[k + 1] == sep);
            }
        }
        lemma_split_on_plain(t, sep);
        assert(seq![s[0]] + t =~= s);
        assert(split_on(s, sep) =~= seq![s]);
    } else {
        assert(s =~= Seq::<char>::empty());
    }
}

/// Splitting at the first separator peels off the first piece.
pub proof fn lemma_split_on_first(a: Seq<char>, b: Seq<char>, sep: char)
    requires
        !a.contains(sep),
    ensures
        split_on(a + seq![sep] + b, sep) == seq![a] + split_on(b, sep),
    decreases a.len(),
{
    let s = a + seq![sep] + b;
    if a.len() == 0 {
        assert(s.drop_first() =~= b);
        assert(a =~= Seq::<char>::empty());
    } else {
        let a1 = a.drop_first();
        assert(!a1.contains(sep)) by {
            if a1.contains(sep) {
                let k = choose|k: int| 0 <= k < a1.len() && a1[k] == sep;
                assert(a[k + 1] == sep);
            }
        }
        lemma_split_on_first(a1, b, sep);
        assert(s.drop_first() =~= a1 + seq![sep] + b);
        assert(seq![a[0]] + a1 =~= a);
        lemma_split_on_bound(b, sep);
        assert(split_on(s, sep) =~= seq![a] + split_on(b, sep));
    }
}

/// Relies on `str::trim`: removes leading and trailing characters whose
/// `char::is_whitespace` holds, which is the Unicode `White_Space` property.
#[verifier::external_body]
pub(crate) fn trim(s: &str) -> (r: &str)
    ensures
        r@ == trimmed(s@),
{
    s.trim()
}

/// Relies on `str::split_once` with a `char` pattern: the text before the first
/// occurrence of `sep` and the text after it, or `None` where `sep` does not occur.
#[verifier::external_body]
pub(crate) fn split_once(s: &str, sep: char) -> (r: Option<(&str, &str)>)
    ensures
        match r {
            Some((a, b)) => a@ + seq![sep] + b@ == s@ && !a@.contains(sep),
            None => !s@.contains(sep),
        },
{
    s.split_once(sep)
}

/// The characters of `s`, in order.
pub(crate) fn chars_of(s: &str) -> (v: Vec<char>)
    ensures
        v@ == s@,
{
    let mut v: Vec<char> = Vec::new();
    for c in it: s.chars()
        invariant
            v@ == it.seq().take(it.index() as int),
    {
        v.push(c);
    }
    v
}

/// The views of a sequence of string slices.
pub open spec fn views(s: Seq<&str>) -> Seq<Seq<char>> {
    s.map_values(|f: &str| f@)
}

/// The `|`-separated fields of a log line, in order.
pub fn split_fields(line: &str) -> (r: Vec<&str>)
    ensures
        views(r@) == split_on(line@, '|'),
{
    let mut r: Vec<&str> = Vec::new();
    let mut rest: &str = line;
    loop
        invariant
            views(r@) + split_on(rest@, '|') == split_on(line@, '|'),
        decreases rest@.len(),
    {
        match split_once(rest, '|') {
            Some((a, b)) => {
                proof {
                    lemma_split_on_first(a@, b@, '|');
                    assert(views(r@.push(a)) =~= views(r@) + seq![a@]);
                    assert(views(r@) + split_on(rest@, '|') =~= views(r@.push(a)) + split_on(b@, '|'));
                }
                r.push(a);
                rest = b;
            },
            None => {
                proof {
                    lemma_split_on_plain(rest@, '|');
                    assert(views(r@.push(rest)) =~= views(r@) + seq![rest@]);
                }
                r.push(rest);
                return r;
            },
        }
    }
}

} // verus!
