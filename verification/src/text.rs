//! Text as the dashboard uses it: the order of names, prefixes, and the parts of
//! a tag.
use vstd::prelude::*;
use vstd::std_specs::iter::IteratorSpec;

verus! {

/// The text of an optional string.
pub open spec fn text_of(name: Option<String>) -> Option<Seq<char>> {
    match name {
        Some(name) => Some(name@),
        None => None,
    }
}

/// `a` comes before `b` in the order of strings: by the first code point in which
/// they differ, and a proper prefix first.
pub open spec fn before(a: Seq<char>, b: Seq<char>) -> bool
    decreases b.len(),
{
    b.len() > 0 && (a.len() == 0 || a[0] < b[0] || (a[0] == b[0] && before(
        a.drop_first(),
        b.drop_first(),
    )))
}

pub proof fn lemma_before_irreflexive(a: Seq<char>)
    ensures
        !before(a, a),
    decreases a.len(),
{
    if a.len() > 0 {
        lemma_before_irreflexive(a.drop_first());
    }
}

pub proof fn lemma_before_transitive(a: Seq<char>, b: Seq<char>, c: Seq<char>)
    requires
        before(a, b),
        before(b, c),
    ensures
        before(a, c),
    decreases b.len(),
{
    if a.len() > 0 && a[0] == b[0] && b[0] == c[0] {
        lemma_before_transitive(a.drop_first(), b.drop_first(), c.drop_first());
    }
}

pub proof fn lemma_before_total(a: Seq<char>, b: Seq<char>)
    ensures
        before(a, b) || before(b, a) || a == b,
    decreases a.len(),
{
    if a.len() == 0 || b.len() == 0 {
        assert(a.len() == 0 && b.len() == 0 ==> a =~= b);
    } else if a[0] == b[0] {
        lemma_before_total(a.drop_first(), b.drop_first());
        if a.drop_first() == b.drop_first() {
            assert(a =~= seq![a[0]] + a.drop_first());
            assert(b =~= seq![b[0]] + b.drop_first());
        }
    }
}

/// Whether `a` comes before `b`.
pub fn is_before(a: &str, b: &str) -> (r: bool)
    ensures
        r == before(a@, b@),
{
    let mut p = a.chars();
    let mut q = b.chars();
    let ghost mut k: int = 0;
    loop
        invariant
            p.obeys_prophetic_iter_laws(),
            q.obeys_prophetic_iter_laws(),
            0 <= k <= a@.len(),
            k <= b@.len(),
            p.remaining() == a@.skip(k),
            q.remaining() == b@.skip(k),
            before(a@, b@) == before(a@.skip(k), b@.skip(k)),
        decreases a@.len() - k,
    {
        match (p.next(), q.next()) {
            (_, None) => {
                return false;
            },
            (None, Some(_)) => {
                return true;
            },
            (Some(c), Some(d)) => {
                if c < d {
                    return true;
                }
                if d < c {
                    return false;
                }
                proof {
                    assert(a@.skip(k).drop_first() =~= a@.skip(k + 1));
                    assert(b@.skip(k).drop_first() =~= b@.skip(k + 1));
                    k = k + 1;
                }
            },
        }
    }
}

/// The characters of `s`.
pub fn chars_of(s: &str) -> (r: Vec<char>)
    ensures
        r@ == s@,
{
    let mut r: Vec<char> = Vec::new();
    let mut p = s.chars();
    loop
        invariant
            p.obeys_prophetic_iter_laws(),
            r@.len() <= s@.len(),
            r@ == s@.take(r@.len() as int),
            p.remaining() == s@.skip(r@.len() as int),
        decreases s@.len() - r@.len(),
    {
        match p.next() {
            None => {
                return r;
            },
            Some(c) => {
                r.push(c);
            },
        }
    }
}

/// `part` stands in `s` at position `at`.
pub open spec fn stands_at(s: Seq<char>, part: Seq<char>, at: int) -> bool {
    0 <= at && at + part.len() <= s.len() && s.subrange(at, at + part.len()) == part
}

/// Whether `s` begins with `prefix`.
pub fn begins_with(s: &str, prefix: &str) -> (r: bool)
    ensures
        r == prefix@.is_prefix_of(s@),
{
    let mut p = s.chars();
    let mut q = prefix.chars();
    let ghost mut k: int = 0;
    loop
        invariant
            p.obeys_prophetic_iter_laws(),
            q.obeys_prophetic_iter_laws(),
            0 <= k <= s@.len(),
            k <= prefix@.len(),
            p.remaining() == s@.skip(k),
            q.remaining() == prefix@.skip(k),
            s@.take(k) == prefix@.take(k),
        decreases prefix@.len() - k,
    {
        match (q.next(), p.next()) {
            (None, _) => {
                assert(prefix@.take(k) =~= prefix@);
                return true;
            },
            (Some(_), None) => {
                return false;
            },
            (Some(c), Some(d)) => {
                assert(prefix@[k] == c && s@[k] == d);
                if c != d {
                    assert(s@.subrange(0, prefix@.len() as int)[k] == d || prefix@.len()
                        > s@.len());
                    return false;
                }
                proof {
                    assert(s@.take(k + 1) =~= s@.take(k).push(d));
                    assert(prefix@.take(k + 1) =~= prefix@.take(k).push(c));
                    k = k + 1;
                }
            },
        }
    }
}

/// Whether `part` stands anywhere in `s`.
pub fn mentions(s: &str, part: &str) -> (r: bool)
    ensures
        r == exists|at: int| stands_at(s@, part@, at),
{
    let text = chars_of(s);
    let wanted = chars_of(part);
    if wanted.len() > text.len() {
        return false;
    }
    let mut at: usize = 0;
    while at <= text.len() - wanted.len()
        invariant
            text@ == s@,
            wanted@ == part@,
            wanted.len() <= text.len(),
            at <= text.len() - wanted.len() + 1,
            forall|i: int| 0 <= i < at ==> !stands_at(s@, part@, i),
        decreases text.len() - at,
    {
        let mut k: usize = 0;
        while k < wanted.len() && text[at + k] == wanted[k]
            invariant
                text@ == s@,
                wanted@ == part@,
                at + wanted.len() <= text.len(),
                k <= wanted.len(),
                forall|j: int| 0 <= j < k ==> text@[at + j] == wanted@[j],
            decreases wanted.len() - k,
        {
            k += 1;
        }
        if k == wanted.len() {
            assert(s@.subrange(at as int, at + part@.len()) =~= part@);
            assert(stands_at(s@, part@, at as int));
            return true;
        }
        assert(s@.subrange(at as int, at + part@.len())[k as int] == text@[at + k]);
        if at == text.len() - wanted.len() {
            return false;
        }
        at += 1;
    }
    false
}

/// The position of the first slash of `tag`, or its length.
pub open spec fn slash_position(tag: Seq<char>) -> int
    decreases tag.len(),
{
    if tag.len() == 0 || tag[0] == '/' {
        0
    } else {
        1 + slash_position(tag.drop_first())
    }
}

/// The section that a tag belongs to: what stands before its first slash.
pub open spec fn section_name(tag: Seq<char>) -> Seq<char> {
    tag.take(slash_position(tag))
}

/// A section name holds no slash, and what follows it in the tag, if anything,
/// begins with one.
pub proof fn law_sections_end_at_a_slash(tag: Seq<char>)
    ensures
        section_name(tag).is_prefix_of(tag),
        !section_name(tag).contains('/'),
        section_name(tag) == tag || tag[section_name(tag).len() as int] == '/',
    decreases tag.len(),
{
    let section = section_name(tag);
    if tag.len() > 0 && tag[0] != '/' {
        let rest = tag.drop_first();
        law_sections_end_at_a_slash(rest);
        let inner = section_name(rest);
        lemma_slash_position(rest);
        assert(section =~= seq![tag[0]] + inner);
        assert forall|i: int| 0 <= i < section.len() implies section[i] != '/' by {
            if i > 0 {
                assert(section[i] == inner[i - 1]);
            }
        }
        if inner == rest {
            assert(section =~= tag);
        }
    } else {
        assert(section =~= Seq::empty());
        assert(tag.len() == 0 ==> section =~= tag);
    }
}

proof fn lemma_slash_position(tag: Seq<char>)
    ensures
        0 <= slash_position(tag) <= tag.len(),
    decreases tag.len(),
{
    if tag.len() > 0 && tag[0] != '/' {
        lemma_slash_position(tag.drop_first());
    }
}

/// The section that a tag belongs to.
pub fn section_of(tag: &str) -> (r: String)
    ensures
        r@ == section_name(tag@),
{
    let len: usize = tag.unicode_len();
    let mut p = tag.chars();
    let mut k: usize = 0;
    loop
        invariant
            p.obeys_prophetic_iter_laws(),
            len == tag@.len(),
            k <= len,
            p.remaining() == tag@.skip(k as int),
            slash_position(tag@) == k + slash_position(tag@.skip(k as int)),
        decreases len - k,
    {
        let ghost rest = tag@.skip(k as int);
        match p.next() {
            Some(c) => {
                if c == '/' {
                    return tag.substring_char(0, k).to_owned();
                }
                assert(rest.drop_first() =~= tag@.skip(k + 1));
                k += 1;
            },
            None => {
                return tag.substring_char(0, k).to_owned();
            },
        }
    }
}

/// Evaluation tags are those that start with `eval/`.
pub open spec fn eval_tag(tag: Seq<char>) -> bool {
    "eval/"@.is_prefix_of(tag)
}

/// Whether `tag` is an evaluation tag.
pub fn is_eval(tag: &str) -> (r: bool)
    ensures
        r == eval_tag(tag@),
{
    begins_with(tag, "eval/")
}

} // verus!
