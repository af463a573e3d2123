use vstd::prelude::*;
use vstd::utf8::{decode_utf8, valid_utf8};

verus! {

/// The pieces of `s` between the occurrences of `sep`, in order. This is what
/// `str::split` with a `char` pattern yields: an empty text gives one empty
/// piece, and a separator at either end gives an empty piece there.
pub open spec fn split_on(s: Seq<char>, sep: char) -> Seq<Seq<char>>
    decreases s.len(),
{
    if s.len() == 0 {
        seq![Seq::<char>::empty()]
    } else {
        let rest = split_on(s.drop_last(), sep);
        if s.last() == sep {
            rest.push(Seq::<char>::empty())
        } else {
            rest.update(rest.len() - 1, rest.last().push(s.last()))
        }
    }
}

/// The characters of each string, in order.
pub open spec fn views(v: Seq<String>) -> Seq<Seq<char>> {
    v.map_values(|x: String| x@)
}

/// Splitting never gives an empty list of pieces.
pub proof fn lemma_split_on_len(s: Seq<char>, sep: char)
    ensures
        split_on(s, sep).len() >= 1,
    decreases s.len(),
{
    if s.len() > 0 {
        lemma_split_on_len(s.drop_last(), sep);
    }
}

/// Splitting a concatenation: the last piece of `a` and the first piece of
/// `b` join into one piece; the other pieces are those of `a` and of `b`.
pub proof fn lemma_split_on_concat(a: Seq<char>, b: Seq<char>, sep: char)
    ensures
        split_on(a + b, sep) == split_on(a, sep).drop_last() + seq![
            split_on(a, sep).last() + split_on(b, sep)[0],
        ] + split_on(b, sep).skip(1),
    decreases b.len(),
{
    lemma_split_on_len(a, sep);
    lemma_split_on_len(b, sep);
    let sa = split_on(a, sep);
    if b.len() == 0 {
        assert(a + b =~= a);
        assert(sa.last() + split_on(b, sep)[0] =~= sa.last());
        assert(sa.drop_last() + seq![sa.last()] + split_on(b, sep).skip(1) =~= sa);
    } else {
        let b1 = b.drop_last();
        let c = b.last();
        lemma_split_on_concat(a, b1, sep);
        lemma_split_on_len(b1, sep);
        assert((a + b).drop_last() =~= a + b1);
        assert((a + b).last() == c);
        let s1 = split_on(a + b1, sep);
        let p1 = split_on(b1, sep);
        let pb = split_on(b, sep);
        let rhs = sa.drop_last() + seq![sa.last() + pb[0]] + pb.skip(1);
        if c == sep {
            assert(pb == p1.push(Seq::<char>::empty()));
            assert(pb[0] == p1[0]);
            assert(pb.skip(1) =~= p1.skip(1).push(Seq::<char>::empty()));
            assert(split_on(a + b, sep) == s1.push(Seq::<char>::empty()));
            assert(split_on(a + b, sep) =~= rhs);
        } else {
            assert(pb == p1.update(p1.len() - 1, p1.last().push(c)));
            assert(split_on(a + b, sep) == s1.update(s1.len() - 1, s1.last().push(c)));
            if p1.len() == 1 {
                assert(pb[0] == p1[0].push(c));
                assert(sa.last() + pb[0] =~= (sa.last() + p1[0]).push(c));
                assert(pb.skip(1) =~= p1.skip(1));
                assert(split_on(a + b, sep) =~= rhs);
            } else {
                assert(pb[0] == p1[0]);
                assert(pb.skip(1) =~= p1.skip(1).update(p1.len() - 2, p1.last().push(c)));
                assert(split_on(a + b, sep) =~= rhs);
            }
        }
    }
}

/// A text splits into two pieces or more exactly when it holds the separator.
pub proof fn lemma_split_on_two_iff(s: Seq<char>, sep: char)
    ensures
        split_on(s, sep).len() >= 2 <==> s.contains(sep),
    decreases s.len(),
{
    if s.len() > 0 {
        let d = s.drop_last();
        lemma_split_on_two_iff(d, sep);
        lemma_split_on_len(d, sep);
        if d.contains(sep) {
            let i = choose|i: int| 0 <= i < d.len() && d[i] == sep;
            assert(s[i] == sep);
        }
        if s.contains(sep) {
            let i = choose|i: int| 0 <= i < s.len() && s[i] == sep;
            if i < d.len() {
                assert(d[i] == sep);
            }
        }
        if s.last() == sep {
            assert(s[s.len() - 1] == sep);
        }
    }
}

/// The first piece of a text that starts with the separator is empty.
pub proof fn lemma_split_on_leading_sep(s: Seq<char>, sep: char)
    requires
        s.len() > 0,
        s[0] == sep,
    ensures
        split_on(s, sep).len() >= 1,
        split_on(s, sep)[0] == Seq::<char>::empty(),
{
    let a = seq![sep];
    let b = s.skip(1);
    assert(a + b =~= s);
    assert(a.drop_last() =~= Seq::<char>::empty());
    assert(split_on(a.drop_last(), sep) == seq![Seq::<char>::empty()]);
    assert(split_on(a, sep) =~= seq![Seq::<char>::empty(), Seq::<char>::empty()]);
    lemma_split_on_concat(a, b, sep);
}

/// A text without the separator is one piece.
pub proof fn lemma_split_on_absent(s: Seq<char>, sep: char)
    requires
        forall|i: int| 0 <= i < s.len() ==> s[i] != sep,
    ensures
        split_on(s, sep) == seq![s],
    decreases s.len(),
{
    if s.len() > 0 {
        let d = s.drop_last();
        lemma_split_on_absent(d, sep);
        assert(d.push(s.last()) =~= s);
        assert(split_on(s, sep) =~= seq![s]);
    } else {
        assert(s =~= Seq::<char>::empty());
    }
}

/// Splits `text` at each `sep`, as `str::split` does.
pub fn split_text(text: &str, sep: char) -> (parts: Vec<String>)
    ensures
        views(parts@) == split_on(text@, sep),
{
    let n = text.unicode_len();
    let mut parts: Vec<String> = Vec::new();
    let mut start: usize = 0;
    let mut i: usize = 0;
    assert(text@.take(0) =~= Seq::<char>::empty());
    assert(views(parts@).push(text@.subrange(0, 0)) =~= split_on(text@.take(0), sep));
    while i < n
        invariant
            n == text@.len(),
            start <= i <= n,
            views(parts@).push(text@.subrange(start as int, i as int)) == split_on(
                text@.take(i as int),
                sep,
            ),
        decreases n - i,
    {
        let c = text.get_char(i);
        let ghost before = views(parts@).push(text@.subrange(start as int, i as int));
        proof {
            assert(text@.take(i + 1).drop_last() =~= text@.take(i as int));
            assert(text@.take(i + 1).last() == c);
        }
        if c == sep {
            let piece = text.substring_char(start, i).to_owned();
            assert(piece@ == text@.subrange(start as int, i as int));
            let ghost old_parts = parts@;
            parts.push(piece);
            start = i + 1;
            assert(views(parts@) =~= views(old_parts).push(piece@));
            assert(text@.subrange(start as int, (i + 1) as int) =~= Seq::<char>::empty());
            assert(views(parts@).push(text@.subrange(start as int, (i + 1) as int)) =~= before.push(
                Seq::<char>::empty(),
            ));
        } else {
            assert(text@.subrange(start as int, (i + 1) as int) =~= text@.subrange(
                start as int,
                i as int,
            ).push(c));
            assert(views(parts@).push(text@.subrange(start as int, (i + 1) as int)) =~= before.update(
                before.len() - 1,
                before.last().push(c),
            ));
        }
        i = i + 1;
    }
    let last = text.substring_char(start, n).to_owned();
    let ghost old_parts = parts@;
    parts.push(last);
    assert(text@.take(n as int) =~= text@);
    assert(views(parts@) =~= views(old_parts).push(last@));
    parts
}

/// Whether two texts hold the same characters.
pub fn str_eq(a: &str, b: &str) -> (r: bool)
    ensures
        r == (a@ == b@),
{
    let n = a.unicode_len();
    let m = b.unicode_len();
    if n != m {
        return false;
    }
    let mut i: usize = 0;
    while i < n
        invariant
            n == a@.len(),
            n == b@.len(),
            i <= n,
            forall|j: int| 0 <= j < i ==> a@[j] == b@[j],
        decreases n - i,
    {
        if a.get_char(i) != b.get_char(i) {
            return false;
        }
        i = i + 1;
    }
    assert(a@ =~= b@);
    true
}

/// `std::str::from_utf8`: documented to succeed exactly when the bytes are
/// valid UTF-8, and then to give the text that they encode.
#[verifier::external_body]
pub(crate) fn utf8_text(bytes: &[u8]) -> (r: Option<&str>)
    ensures
        r is Some <==> valid_utf8(bytes@),
        r matches Some(t) ==> t@ == decode_utf8(bytes@),
{
    std::str::from_utf8(bytes).ok()
}

} // verus!
