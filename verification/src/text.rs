//! Character-level text helpers: locating a separator, splitting a line into
//! fields, and comparing strings, each proved against a spec-level model.

use vstd::prelude::*;

verus! {

/// The index of the first occurrence of `c` in `s`, if there is one.
pub open spec fn find_char(s: Seq<char>, c: char) -> Option<int>
    decreases s.len(),
{
    if s.len() == 0 {
        None
    } else if s[0] == c {
        Some(0int)
    } else {
        match find_char(s.drop_first(), c) {
            None => None,
            Some(i) => Some(i + 1),
        }
    }
}

/// `find_char` returns the first occurrence: the found index holds `c` and
/// nothing before it does; `None` means `c` does not occur at all.
pub proof fn lemma_find_char(s: Seq<char>, c: char)
    ensures
        match find_char(s, c) {
            Some(i) => 0 <= i < s.len() && s[i] == c && (forall|m: int| 0 <= m < i ==> s[m] != c),
            None => forall|m: int| 0 <= m < s.len() ==> s[m] != c,
        },
    decreases s.len(),
{
    if s.len() == 0 {
    } else if s[0] == c {
    } else {
        lemma_find_char(s.drop_first(), c);
        match find_char(s.drop_first(), c) {
            None => {
                assert forall|m: int| 0 <= m < s.len() implies s[m] != c by {
                    if m > 0 {
                        assert(s.drop_first()[m - 1] == s[m]);
                    }
                }
            },
            Some(i) => {
                assert(s.drop_first()[i] == s[i + 1]);
                assert forall|m: int| 0 <= m < i + 1 implies s[m] != c by {
                    if m > 0 {
                        assert(s.drop_first()[m - 1] == s[m]);
                    }
                }
            },
        }
    }
}

/// The fields of `s` split on the separator `sep`, in order. A sequence
/// without the separator is one field, so the result never has fewer than
/// one field.
pub open spec fn split_fields(s: Seq<char>, sep: char) -> Seq<Seq<char>>
    decreases s.len(),
{
    if s.len() == 0 {
        seq![Seq::<char>::empty()]
    } else if s[0] == sep {
        seq![Seq::<char>::empty()] + split_fields(s.drop_first(), sep)
    } else {
        let rest = split_fields(s.drop_first(), sep);
        seq![seq![s[0]] + rest[0]] + rest.drop_first()
    }
}

pub proof fn lemma_split_fields_len(s: Seq<char>, sep: char)
    ensures
        split_fields(s, sep).len() >= 1,
    decreases s.len(),
{
    if s.len() == 0 {
    } else {
        lemma_split_fields_len(s.drop_first(), sep);
    }
}

/// A sequence free of the separator splits into exactly itself.
pub proof fn lemma_split_fields_no_sep(s: Seq<char>, sep: char)
    requires
        forall|m: int| 0 <= m < s.len() ==> s[m] != sep,
    ensures
        split_fields(s, sep) == seq![s],
    decreases s.len(),
{
    if s.len() == 0 {
        assert(s =~= Seq::<char>::empty());
    } else {
        assert forall|m: int| 0 <= m < s.drop_first().len() implies s.drop_first()[m] != sep by {
            assert(s.drop_first()[m] == s[m + 1]);
        }
        lemma_split_fields_no_sep(s.drop_first(), sep);
        lemma_split_fields_len(s.drop_first(), sep);
        assert(seq![s.drop_first()][0] == s.drop_first());
        assert(seq![s[0]] + s.drop_first() =~= s);
        assert(seq![s.drop_first()].drop_first() =~= Seq::<Seq<char>>::empty());
        assert(seq![seq![s[0]] + seq![s.drop_first()][0]] + seq![s.drop_first()].drop_first()
            =~= seq![s]);
    }
}

/// Splitting a sequence that opens with a separator-free field `f`, then the
/// separator, then a remainder `r`, yields `f` followed by the split of `r`.
pub proof fn lemma_split_fields_sep_at(f: Seq<char>, sep: char, r: Seq<char>)
    requires
        forall|m: int| 0 <= m < f.len() ==> f[m] != sep,
    ensures
        split_fields(f + seq![sep] + r, sep) == seq![f] + split_fields(r, sep),
    decreases f.len(),
{
    let s = f + seq![sep] + r;
    if f.len() == 0 {
        assert(s[0] == sep);
        assert(s.drop_first() =~= r);
        assert(f =~= Seq::<char>::empty());
    } else {
        assert(s[0] == f[0]);
        assert(s.drop_first() =~= f.drop_first() + seq![sep] + r);
        assert forall|m: int| 0 <= m < f.drop_first().len() implies f.drop_first()[m] != sep by {
            assert(f.drop_first()[m] == f[m + 1]);
        }
        lemma_split_fields_sep_at(f.drop_first(), sep, r);
        lemma_split_fields_len(r, sep);
        let rest = split_fields(s.drop_first(), sep);
        assert(rest[0] == f.drop_first());
        assert(rest.drop_first() =~= split_fields(r, sep));
        assert(seq![s[0]] + rest[0] =~= f);
        assert(seq![seq![s[0]] + rest[0]] + rest.drop_first() =~= seq![f] + split_fields(r, sep));
    }
}

/// The views of a sequence of owned strings.
pub open spec fn views_of(v: Seq<String>) -> Seq<Seq<char>> {
    v.map_values(|f: String| f@)
}

/// Splits `s` on the single-character separator `sep` into owned fields,
/// exactly as `split_fields` describes.
pub fn split_fields_exec(s: &str, sep: char) -> (r: Vec<String>)
    ensures
        views_of(r@) == split_fields(s@, sep),
{
    let n: usize = s.unicode_len();
    let mut fields: Vec<String> = Vec::new();
    let mut start: usize = 0;
    proof {
        assert(s@.subrange(0int, n as int) =~= s@);
        assert(views_of(fields@) =~= Seq::<Seq<char>>::empty());
        assert(views_of(fields@) + split_fields(s@, sep) =~= split_fields(s@, sep));
    }
    loop
        invariant
            start <= n,
            n == s@.len(),
            split_fields(s@, sep) == views_of(fields@) + split_fields(
                s@.subrange(start as int, n as int),
                sep,
            ),
        decreases n - start,
    {
        let mut j: usize = start;
        while j < n && s.get_char(j) != sep
            invariant
                start <= j <= n,
                n == s@.len(),
                forall|m: int| start <= m < j ==> s@[m] != sep,
            decreases n - j,
        {
            j = j + 1;
        }
        let ghost piece = s@.subrange(start as int, j as int);
        let field = String::from_str(s.substring_char(start, j));
        let ghost old_fields = fields@;
        fields.push(field);
        proof {
            assert(views_of(fields@) =~= views_of(old_fields).push(piece));
            assert forall|m: int| 0 <= m < piece.len() implies piece[m] != sep by {
                assert(piece[m] == s@[start + m]);
            }
        }
        if j == n {
            proof {
                lemma_split_fields_no_sep(piece, sep);
                assert(views_of(old_fields).push(piece) =~= views_of(old_fields) + seq![piece]);
            }
            return fields;
        }
        proof {
            assert(s@[j as int] == sep);
            assert(s@.subrange(start as int, n as int) =~= piece + seq![sep] + s@.subrange(
                j + 1int,
                n as int,
            ));
            lemma_split_fields_sep_at(piece, sep, s@.subrange(j + 1int, n as int));
            assert(views_of(old_fields) + (seq![piece] + split_fields(
                s@.subrange(j + 1int, n as int),
                sep,
            )) =~= (views_of(old_fields) + seq![piece]) + split_fields(
                s@.subrange(j + 1int, n as int),
                sep,
            ));
            assert(views_of(old_fields).push(piece) =~= views_of(old_fields) + seq![piece]);
        }
        start = j + 1;
    }
}

/// Character-for-character string equality, decided in executable code.
pub fn str_eq(a: &str, b: &str) -> (r: bool)
    ensures
        r == (a@ == b@),
{
    let na: usize = a.unicode_len();
    let nb: usize = b.unicode_len();
    if na != nb {
        return false;
    }
    let mut i: usize = 0;
    while i < na
        invariant
            i <= na,
            na == a@.len(),
            nb == b@.len(),
            na == nb,
            forall|m: int| 0 <= m < i ==> a@[m] == b@[m],
        decreases na - i,
    {
        if a.get_char(i) != b.get_char(i) {
            return false;
        }
        i = i + 1;
    }
    proof {
        assert(a@ =~= b@);
    }
    true
}

} // verus!
