use vstd::prelude::*;
use crate::text::{lex_lt, strictly_sorted, same_text, text_less, chars_of, lemma_lex_total, lemma_lex_transitive};

verus! {

/// A package identity: the bare package name, without version or source.
#[derive(Copy, Clone, Debug, PartialEq, Eq, PartialOrd, Ord, Hash)]
pub struct Crate<'a>(pub &'a str);

impl<'a> View for Crate<'a> {
    type V = Seq<char>;

    open spec fn view(&self) -> Seq<char> {
        self.0@
    }
}

/// The name that a raw package reference stands for: everything before its
/// first space, or the whole reference when it has none.
pub open spec fn crate_name(raw: Seq<char>) -> Seq<char> {
    match raw.index_of_first(' ') {
        Some(i) => raw.subrange(0, i),
        None => raw,
    }
}

/// The names of a sequence of identities, in the same order.
pub open spec fn names<'a>(v: Seq<Crate<'a>>) -> Seq<Seq<char>> {
    v.map_values(|c: Crate<'a>| c@)
}

impl<'a> Crate<'a> {
    /// The identity of a raw reference such as `"libc 0.2.30 (registry+...)"`.
    pub fn from_str(s: &'a str) -> (r: Self)
        ensures
            r@ == crate_name(s@),
    {
        let cs = chars_of(s);
        let mut i: usize = 0;
        while i < cs.len()
            invariant
                cs@ == s@,
                i <= cs.len(),
                forall|j: int| 0 <= j < i ==> cs@[j] != ' ',
            decreases cs.len() - i,
        {
            if cs[i] == ' ' {
                proof {
                    s@.index_of_first_ensures(' ');
                    assert(s@.contains(' '));
                }
                return Crate(s.substring_char(0, i));
            }
            i = i + 1;
        }
        proof {
            s@.index_of_first_ensures(' ');
        }
        Crate(s)
    }

    /// The prefix that a raw node id of this package starts with: the name
    /// followed by one space (so that `foo` does not match `foobar`).
    pub fn id_str(&self) -> (r: String)
        ensures
            r@ == self@.push(' '),
    {
        let mut r = self.0.to_owned();
        r.append(" ");
        proof {
            reveal_strlit(" ");
        }
        assert(r@ =~= self@.push(' '));
        r
    }
}

/// Whether `c` is one of the identities in `v`.
pub fn holds_crate<'a>(v: &Vec<Crate<'a>>, c: Crate<'a>) -> (r: bool)
    ensures
        r == names(v@).contains(c@),
{
    let mut i: usize = 0;
    while i < v.len()
        invariant
            i <= v.len(),
            forall|j: int| 0 <= j < i ==> v@[j]@ != c@,
        decreases v.len() - i,
    {
        if same_text(v[i].0, c.0) {
            assert(names(v@)[i as int] == c@);
            return true;
        }
        i = i + 1;
    }
    assert(!names(v@).contains(c@)) by {
        if names(v@).contains(c@) {
            let k = choose|k: int| 0 <= k < names(v@).len() && names(v@)[k] == c@;
            assert(v@[k]@ == c@);
        }
    }
    false
}

/// Adds `c` to a sorted, duplicate-free list of identities, keeping it sorted
/// and duplicate-free; does nothing if `c` is already there.
pub fn add_sorted<'a>(v: &mut Vec<Crate<'a>>, c: Crate<'a>)
    requires
        strictly_sorted(names(old(v)@)),
    ensures
        strictly_sorted(names(final(v)@)),
        names(final(v)@).to_set() == names(old(v)@).to_set().insert(c@),
{
    let ghost old_names = names(v@);
    let mut i: usize = 0;
    while i < v.len()
        invariant
            v@ == old(v)@,
            old_names == names(v@),
            strictly_sorted(old_names),
            i <= v.len(),
            forall|j: int| 0 <= j < i ==> lex_lt(#[trigger] old_names[j], c@),
        ensures
            v@ == old(v)@,
            i <= v.len(),
            forall|j: int| 0 <= j < i ==> lex_lt(#[trigger] old_names[j], c@),
            i < v.len() ==> lex_lt(c@, old_names[i as int]),
        decreases v.len() - i,
    {
        if same_text(v[i].0, c.0) {
            assert(old_names.to_set().insert(c@) =~= old_names.to_set()) by {
                assert(old_names[i as int] == c@);
            }
            return;
        }
        if text_less(c.0, v[i].0) {
            break;
        }
        proof {
            lemma_lex_total(old_names[i as int], c@);
        }
        i = i + 1;
    }
    v.insert(i, c);
    proof {
        let nn = names(v@);
        assert(nn =~= old_names.insert(i as int, c@));
        assert forall|p: int, q: int| 0 <= p < q < nn.len() implies lex_lt(#[trigger] nn[p], #[trigger] nn[q]) by {
            if q < i {
                assert(nn[p] == old_names[p] && nn[q] == old_names[q]);
            } else if q == i {
                assert(nn[p] == old_names[p]);
            } else if p == i {
                assert(nn[q] == old_names[q - 1]);
                if q - 1 > i {
                    assert(lex_lt(old_names[i as int], old_names[q - 1]));
                    lemma_lex_transitive(c@, old_names[i as int], old_names[q - 1]);
                }
            } else if p < i {
                assert(nn[p] == old_names[p]);
                assert(nn[q] == old_names[q - 1]);
                assert(lex_lt(old_names[p], c@));
                if q - 1 == i {
                    lemma_lex_transitive(old_names[p], c@, old_names[q - 1]);
                } else {
                    assert(lex_lt(old_names[i as int], old_names[q - 1]));
                    lemma_lex_transitive(c@, old_names[i as int], old_names[q - 1]);
                    lemma_lex_transitive(old_names[p], c@, old_names[q - 1]);
                }
            } else {
                assert(nn[p] == old_names[p - 1]);
                assert(nn[q] == old_names[q - 1]);
            }
        }
        assert forall|x: Seq<char>| nn.to_set().contains(x) <==> old_names.to_set().insert(c@).contains(x) by {
            if nn.to_set().contains(x) {
                let k = choose|k: int| 0 <= k < nn.len() && nn[k] == x;
                if k < i {
                    assert(old_names[k] == x);
                } else if k > i {
                    assert(old_names[k - 1] == x);
                }
            }
            if old_names.to_set().contains(x) {
                let k = choose|k: int| 0 <= k < old_names.len() && old_names[k] == x;
                if k < i {
                    assert(nn[k] == x);
                } else {
                    assert(nn[k + 1] == x);
                }
            }
            if x == c@ {
                assert(nn[i as int] == x);
            }
        }
        assert(nn.to_set() =~= old_names.to_set().insert(c@));
    }
}

} // verus!
