//! Text helpers: the order in which expressions are listed, and
//! upper-casing.

use vstd::prelude::*;
use vstd::string::*;

verus! {

/// The dictionary order of strings by the code points of their
/// characters, a prefix first.
pub open spec fn lex_le(a: Seq<char>, b: Seq<char>) -> bool
    decreases a.len(),
{
    if a.len() == 0 {
        true
    } else if b.len() == 0 {
        false
    } else if a[0] != b[0] {
        (a[0] as int) < (b[0] as int)
    } else {
        lex_le(a.drop_first(), b.drop_first())
    }
}

/// Of two strings, one comes no later than the other.
pub proof fn lemma_lex_total(a: Seq<char>, b: Seq<char>)
    ensures
        lex_le(a, b) || lex_le(b, a),
    decreases a.len(),
{
    if a.len() != 0 && b.len() != 0 && a[0] == b[0] {
        lemma_lex_total(a.drop_first(), b.drop_first());
    }
}

/// Whether each string of the list comes no later than the next.
pub open spec fn ordered(s: Seq<Seq<char>>) -> bool {
    forall|i: int| 0 <= i < s.len() - 1 ==> lex_le(#[trigger] s[i], s[i + 1])
}

/// The comparison `<=` of `str`, which orders strings by their bytes and
/// thereby by the code points of their characters.
#[verifier::external_body]
pub(crate) fn str_le(a: &str, b: &str) -> (r: bool)
    ensures
        r == lex_le(a@, b@),
{
    a <= b
}

/// The upper-case form of a string.
pub uninterp spec fn uppercased(s: Seq<char>) -> Seq<char>;

/// `str::to_uppercase`: the upper-case form of the string, which depends
/// on the string alone.
#[verifier::external_body]
pub(crate) fn to_upper(s: &str) -> (r: String)
    ensures
        r@ == uppercased(s@),
{
    s.to_uppercase()
}

/// The strings in mathematical form.
pub open spec fn texts_of(v: Seq<String>) -> Seq<Seq<char>> {
    Seq::new(v.len(), |k: int| v[k]@)
}

/// Puts `x` into the ordered list `list`, before the first string that
/// does not come earlier.
pub fn insert_ordered(list: &mut Vec<String>, x: String)
    requires
        ordered(texts_of(old(list)@)),
    ensures
        ordered(texts_of(final(list)@)),
        texts_of(final(list)@).to_multiset() == texts_of(old(list)@).to_multiset().insert(x@),
        final(list)@.len() == old(list)@.len() + 1,
{
    let ghost before = texts_of(list@);
    let mut pos: usize = 0;
    while pos < list.len() && !str_le(x.as_str(), list[pos].as_str())
        invariant
            pos <= list.len(),
            list@ == old(list)@,
            before == texts_of(list@),
            forall|k: int| 0 <= k < pos ==> !lex_le(x@, #[trigger] before[k]),
        decreases list.len() - pos,
    {
        pos += 1;
    }
    let ghost xv = x@;
    list.insert(pos, x);
    proof {
        let now = texts_of(list@);
        assert(now =~= before.insert(pos as int, xv));
        vstd::seq_lib::to_multiset_insert(before, pos as int, xv);
        assert forall|i: int| 0 <= i < now.len() - 1 implies lex_le(#[trigger] now[i], now[i + 1]) by {
            if i + 1 < pos {
                assert(now[i] == before[i] && now[i + 1] == before[i + 1]);
            } else if i + 1 == pos {
                assert(now[i] == before[i]);
                lemma_lex_total(xv, before[i]);
            } else if i == pos {
                assert(now[i + 1] == before[i]);
            } else {
                assert(now[i] == before[i - 1] && now[i + 1] == before[i]);
            }
        }
    }
}

} // verus!
