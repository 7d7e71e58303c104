//! The string transforms: pure, total functions from text to text. Space
//! removal and character reversal are implemented and proved here; case
//! folding, trimming and slugification are delegated to outside routines
//! whose results are named.

use vstd::prelude::*;

verus! {

/// What `str::to_lowercase` returns for the given characters.
pub uninterp spec fn lower_of(s: Seq<char>) -> Seq<char>;

/// What `str::to_uppercase` returns for the given characters.
pub uninterp spec fn upper_of(s: Seq<char>) -> Seq<char>;

/// What `str::trim` returns for the given characters.
pub uninterp spec fn trim_of(s: Seq<char>) -> Seq<char>;

/// What `slug::slugify` returns for the given characters.
pub uninterp spec fn slug_of(s: Seq<char>) -> Seq<char>;

/// Relies on `str::to_lowercase`: the lowercase equivalent of the text, a
/// function of its characters alone; empty input stays empty.
#[verifier::external_body]
fn to_lowercase_raw(s: &str) -> (r: String)
    ensures
        r@ == lower_of(s@),
        s@.len() == 0 ==> r@.len() == 0,
{
    s.to_lowercase()
}

/// Relies on `str::to_uppercase`: the uppercase equivalent of the text, a
/// function of its characters alone; empty input stays empty.
#[verifier::external_body]
fn to_uppercase_raw(s: &str) -> (r: String)
    ensures
        r@ == upper_of(s@),
        s@.len() == 0 ==> r@.len() == 0,
{
    s.to_uppercase()
}

/// Relies on `str::trim`: the input with leading and trailing whitespace
/// removed, hence never longer than the input, a function of its characters
/// alone.
#[verifier::external_body]
fn trim_raw<'a>(s: &'a str) -> (r: &'a str)
    ensures
        r@ == trim_of(s@),
        r@.len() <= s@.len(),
{
    s.trim()
}

/// Relies on `slug::slugify`: an ASCII slug of the input, a function of its
/// characters alone; it holds only `a`-`z`, `0`-`9` and `-`, and it neither
/// starts nor ends with `-`.
#[verifier::external_body]
fn slugify_raw(s: &str) -> (r: String)
    ensures
        r@ == slug_of(s@),
        forall|i: int|
            0 <= i < r@.len() ==> ('a' <= #[trigger] r@[i] <= 'z' || '0' <= r@[i] <= '9' || r@[i]
                == '-'),
        r@.len() > 0 ==> r@[0] != '-' && r@[r@.len() - 1] != '-',
{
    slug::slugify(s)
}

/// Lowercase-folds the text.
pub fn lowercase(s: String) -> (r: String)
    ensures
        r@ == lower_of(s@),
        s@.len() == 0 ==> r@.len() == 0,
{
    to_lowercase_raw(s.as_str())
}

/// Uppercase-folds the text.
pub fn uppercase(s: String) -> (r: String)
    ensures
        r@ == upper_of(s@),
        s@.len() == 0 ==> r@.len() == 0,
{
    to_uppercase_raw(s.as_str())
}

/// Trims whitespace from both ends of the text.
pub fn trim(s: String) -> (r: String)
    ensures
        r@ == trim_of(s@),
        r@.len() <= s@.len(),
{
    String::from_str(trim_raw(s.as_str()))
}

/// Slugifies the text: ASCII lowercase, with non-alphanumeric runs collapsed
/// to single dashes and no dash at either end.
pub fn slugify_input(s: String) -> (r: String)
    ensures
        r@ == slug_of(s@),
        forall|i: int|
            0 <= i < r@.len() ==> ('a' <= #[trigger] r@[i] <= 'z' || '0' <= r@[i] <= '9' || r@[i]
                == '-'),
        r@.len() > 0 ==> r@[0] != '-' && r@[r@.len() - 1] != '-',
{
    slugify_raw(s.as_str())
}

proof fn lemma_filter_singleton(c: char, pred: spec_fn(char) -> bool)
    ensures
        seq![c].filter(pred) == if pred(c) {
            seq![c]
        } else {
            Seq::<char>::empty()
        },
{
    reveal(Seq::filter);
    assert(seq![c].drop_last() =~= Seq::<char>::empty());
    assert(Seq::<char>::empty().filter(pred) == Seq::<char>::empty());
    if pred(c) {
        assert(Seq::<char>::empty().filter(pred).push(c) =~= seq![c]);
    }
}

proof fn lemma_filter_push(x: Seq<char>, c: char, pred: spec_fn(char) -> bool)
    ensures
        x.push(c).filter(pred) == x.filter(pred) + (if pred(c) {
            seq![c]
        } else {
            Seq::<char>::empty()
        }),
{
    reveal(Seq::filter);
    assert(x.push(c).drop_last() =~= x);
    assert(x.push(c).last() == c);
    if pred(c) {
        assert(x.filter(pred).push(c) =~= x.filter(pred) + seq![c]);
    } else {
        assert(x.filter(pred) =~= x.filter(pred) + Seq::<char>::empty());
    }
}

/// Removes every space character from the text.
pub fn nospaces(s: String) -> (r: String)
    ensures
        r@ == s@.filter(|ch: char| ch != ' '),
{
    let n: usize = s.as_str().unicode_len();
    let mut res = String::new();
    let mut i: usize = 0;
    proof {
        reveal(Seq::filter);
        assert(s@.subrange(0int, 0int) =~= Seq::<char>::empty());
        assert(Seq::<char>::empty().filter(|ch: char| ch != ' ') == Seq::<char>::empty());
    }
    while i < n
        invariant
            i <= n,
            n == s@.len(),
            res@ == s@.subrange(0int, i as int).filter(|ch: char| ch != ' '),
        decreases n - i,
    {
        let c: char = s.as_str().get_char(i);
        let ghost res0 = res@;
        let ghost prefix = s@.subrange(0int, i as int);
        if c != ' ' {
            res.push(c);
        }
        i = i + 1;
        proof {
            assert(s@.subrange(0int, i as int) =~= prefix.push(c));
            lemma_filter_push(prefix, c, |ch: char| ch != ' ');
            if c != ' ' {
                assert(res@ =~= res0 + seq![c]);
            } else {
                assert(res0 + Seq::<char>::empty() =~= res0);
            }
        }
    }
    proof {
        assert(s@.subrange(0int, n as int) =~= s@);
    }
    res
}

/// Reverses the text character by character, dropping newline characters
/// entirely rather than repositioning them.
pub fn reverse(s: String) -> (r: String)
    ensures
        r@ == s@.reverse().filter(|ch: char| ch != '\n'),
{
    let n: usize = s.as_str().unicode_len();
    let mut res = String::new();
    let mut i: usize = n;
    proof {
        reveal(Seq::filter);
        assert(s@.subrange(n as int, n as int) =~= Seq::<char>::empty());
        assert(Seq::<char>::empty().reverse() =~= Seq::<char>::empty());
        assert(Seq::<char>::empty().filter(|ch: char| ch != '\n') == Seq::<char>::empty());
    }
    while i > 0
        invariant
            i <= n,
            n == s@.len(),
            res@ == s@.subrange(i as int, n as int).reverse().filter(|ch: char| ch != '\n'),
        decreases i,
    {
        i = i - 1;
        let c: char = s.as_str().get_char(i);
        let ghost res0 = res@;
        let ghost tail = s@.subrange(i + 1int, n as int);
        if c != '\n' {
            res.push(c);
        }
        proof {
            assert(s@.subrange(i as int, n as int).reverse() =~= tail.reverse() + seq![c]);
            Seq::filter_distributes_over_add(tail.reverse(), seq![c], |ch: char| ch != '\n');
            lemma_filter_singleton(c, |ch: char| ch != '\n');
            if c != '\n' {
                assert(res@ =~= res0 + seq![c]);
            } else {
                assert(res0 + Seq::<char>::empty() =~= res0);
            }
        }
    }
    proof {
        assert(s@.subrange(0int, n as int) =~= s@);
    }
    res
}

} // verus!
