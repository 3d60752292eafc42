//! Character-level helpers on strings: comparison, prefixes and the
//! case-insensitive order in which entry names are listed.

use vstd::prelude::*;
use vstd::std_specs::iter::IteratorSpec;

verus! {

/// The lower-case form of an ASCII capital letter; any other character is
/// left as it is.
pub open spec fn ascii_lower(c: char) -> char {
    if 'A' <= c && c <= 'Z' {
        ((c as u8) + 32u8) as char
    } else {
        c
    }
}

/// A text with every ASCII capital letter replaced by its lower-case form.
pub open spec fn folded(text: Seq<char>) -> Seq<char> {
    text.map_values(|c: char| ascii_lower(c))
}

/// Lexicographic order on texts, by character code: a proper prefix comes
/// first, otherwise the first differing character decides.
pub open spec fn lex_le(a: Seq<char>, b: Seq<char>) -> bool
    decreases a.len(),
{
    if a.len() == 0 {
        true
    } else if b.len() == 0 {
        false
    } else if a[0] != b[0] {
        a[0] < b[0]
    } else {
        lex_le(a.drop_first(), b.drop_first())
    }
}

/// Case-insensitive order of names: the lexicographic order of their folded forms.
pub open spec fn name_le(a: Seq<char>, b: Seq<char>) -> bool {
    lex_le(folded(a), folded(b))
}

/// Lower-case form of an ASCII capital letter, any other character unchanged.
pub fn to_ascii_lower(c: char) -> (r: char)
    ensures
        r == ascii_lower(c),
{
    if 'A' <= c && c <= 'Z' {
        ((c as u8) + 32u8) as char
    } else {
        c
    }
}

/// Tells whether two strings hold the same characters.
pub fn same_text(a: &str, b: &str) -> (r: bool)
    ensures
        r == (a@ == b@),
{
    let mut rest = b.chars();
    for c in it: a.chars()
        invariant
            it.seq() == a@,
            it.index() <= b@.len(),
            rest.remaining() == b@.skip(it.index() as int),
            a@.take(it.index() as int) == b@.take(it.index() as int),
    {
        match rest.next() {
            None => {
                return false;
            },
            Some(d) => {
                if c != d {
                    return false;
                }
            },
        }
    }
    assert(a@.take(a@.len() as int) =~= a@);
    let r = rest.next().is_none();
    assert(r ==> b@.take(a@.len() as int) =~= b@);
    r
}

/// Tells whether `text` begins with `prefix`.
pub fn starts_with(text: &str, prefix: &str) -> (r: bool)
    ensures
        r == prefix@.is_prefix_of(text@),
{
    let mut rest = text.chars();
    for c in it: prefix.chars()
        invariant
            it.seq() == prefix@,
            it.index() <= text@.len(),
            rest.remaining() == text@.skip(it.index() as int),
            text@.take(it.index() as int) == prefix@.take(it.index() as int),
    {
        match rest.next() {
            None => {
                return false;
            },
            Some(d) => {
                if c != d {
                    return false;
                }
            },
        }
    }
    true
}

/// Tells whether the name `a` comes before or with the name `b` in the
/// case-insensitive order.
pub fn name_precedes(a: &str, b: &str) -> (r: bool)
    ensures
        r == name_le(a@, b@),
{
    assert(folded(a@).skip(0) =~= folded(a@));
    assert(folded(b@).skip(0) =~= folded(b@));
    let mut rest = b.chars();
    for c in it: a.chars()
        invariant
            it.seq() == a@,
            it.index() <= b@.len(),
            rest.remaining() == b@.skip(it.index() as int),
            name_le(a@, b@) == lex_le(
                folded(a@).skip(it.index() as int),
                folded(b@).skip(it.index() as int),
            ),
    {
        let ghost i = it.index() as int;
        match rest.next() {
            None => {
                return false;
            },
            Some(d) => {
                let x = to_ascii_lower(c);
                let y = to_ascii_lower(d);
                if x != y {
                    return x < y;
                }
                assert(folded(a@).skip(i).drop_first() =~= folded(a@).skip(i + 1));
                assert(folded(b@).skip(i).drop_first() =~= folded(b@).skip(i + 1));
            },
        }
    }
    true
}

/// Of two texts, one comes before or with the other.
pub proof fn lemma_lex_le_total(a: Seq<char>, b: Seq<char>)
    ensures
        lex_le(a, b) || lex_le(b, a),
    decreases a.len(),
{
    if a.len() > 0 && b.len() > 0 && a[0] == b[0] {
        lemma_lex_le_total(a.drop_first(), b.drop_first());
    }
}

/// The lexicographic order is transitive.
pub proof fn lemma_lex_le_transitive(a: Seq<char>, b: Seq<char>, c: Seq<char>)
    requires
        lex_le(a, b),
        lex_le(b, c),
    ensures
        lex_le(a, c),
    decreases a.len(),
{
    if a.len() > 0 && b.len() > 0 && c.len() > 0 && a[0] == b[0] && b[0] == c[0] {
        lemma_lex_le_transitive(a.drop_first(), b.drop_first(), c.drop_first());
    }
}

/// Two texts that come before or with each other are the same text.
pub proof fn lemma_lex_le_antisymmetric(a: Seq<char>, b: Seq<char>)
    requires
        lex_le(a, b),
        lex_le(b, a),
    ensures
        a == b,
    decreases a.len(),
{
    if a.len() > 0 && b.len() > 0 {
        lemma_lex_le_antisymmetric(a.drop_first(), b.drop_first());
        assert(a =~= seq![a[0]] + a.drop_first());
    }
}

/// The case-insensitive order does not tell two names apart exactly where
/// their folded forms are the same.
pub proof fn lemma_name_ties(a: Seq<char>, b: Seq<char>)
    ensures
        (name_le(a, b) && name_le(b, a)) <==> folded(a) == folded(b),
{
    if name_le(a, b) && name_le(b, a) {
        lemma_lex_le_antisymmetric(folded(a), folded(b));
    }
    if folded(a) == folded(b) {
        lemma_lex_le_total(folded(a), folded(b));
    }
}

} // verus!
