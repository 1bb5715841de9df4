//! Texts: lower case, lexicographic order, and lists of texts.

use vstd::prelude::*;

verus! {

/// What `str::to_lowercase` makes of a text.
pub uninterp spec fn lowercase(s: Seq<char>) -> Seq<char>;

/// `str::to_lowercase`: the lower-case form of a text, by the Unicode derived core property.
#[verifier::external_body]
pub(crate) fn to_lowercase(s: &str) -> (res: String)
    ensures
        res@ == lowercase(s@),
{
    s.to_lowercase()
}

/// Text `a` is not behind text `b` in lexicographic order: it is the beginning of `b`, or has
/// the smaller character where they differ first.
pub open spec fn not_behind(a: Seq<char>, b: Seq<char>) -> bool
    decreases a.len(),
{
    if a.len() == 0 {
        true
    } else if b.len() == 0 {
        false
    } else if a[0] != b[0] {
        a[0] < b[0]
    } else {
        not_behind(a.skip(1), b.skip(1))
    }
}

/// The characters of a text.
fn characters(s: &str) -> (res: Vec<char>)
    ensures
        res@ == s@,
{
    let mut res: Vec<char> = Vec::new();
    let ghost all = s@;
    for c in it: s.chars()
        invariant
            it.seq() == all,
            res@ == all.take(it.index() as int),
    {
        proof {
            let i = it.index() as int;
            assert(all.take(i + 1) =~= all.take(i).push(all[i]));
        }
        res.push(c);
    }
    assert(all.take(all.len() as int) =~= all);
    res
}

/// Whether one text is not behind another in lexicographic order.
pub fn text_le(a: &str, b: &str) -> (res: bool)
    ensures
        res == not_behind(a@, b@),
{
    let x: Vec<char> = characters(a);
    let y: Vec<char> = characters(b);
    let mut i: usize = 0;
    assert(a@.skip(0) =~= a@ && b@.skip(0) =~= b@);
    while i < x.len() && i < y.len()
        invariant
            x@ == a@,
            y@ == b@,
            i <= x.len(),
            i <= y.len(),
            not_behind(a@.skip(i as int), b@.skip(i as int)) == not_behind(a@, b@),
        decreases x.len() - i,
    {
        assert(a@.skip(i as int)[0] == x[i as int] && b@.skip(i as int)[0] == y[i as int]);
        if x[i] != y[i] {
            return x[i] < y[i];
        }
        assert(a@.skip(i as int).skip(1) =~= a@.skip(i + 1));
        assert(b@.skip(i as int).skip(1) =~= b@.skip(i + 1));
        i += 1;
    }
    i == x.len()
}

pub open spec fn texts(v: Seq<String>) -> Seq<Seq<char>> {
    Seq::new(v.len(), |i: int| v[i]@)
}

/// Whether a list holds a text.
pub(crate) fn holds_text(list: &Vec<String>, s: &String) -> (res: bool)
    ensures
        res == texts(list@).contains(s@),
{
    let mut i: usize = 0;
    while i < list.len()
        invariant
            i <= list.len(),
            forall|j: int| 0 <= j < i ==> (#[trigger] list[j])@ != s@,
        decreases list.len() - i,
    {
        if list[i] == *s {
            assert(texts(list@)[i as int] == s@);
            return true;
        }
        i += 1;
    }
    proof {
        if texts(list@).contains(s@) {
            let j = choose|j: int| 0 <= j < texts(list@).len() && texts(list@)[j] == s@;
            assert(list[j]@ == s@);
        }
    }
    false
}

/// Adds a text to a list that does not hold it yet.
pub open spec fn with_text(list: Seq<Seq<char>>, s: Seq<char>) -> Seq<Seq<char>> {
    if list.contains(s) {
        list
    } else {
        list.push(s)
    }
}

pub(crate) fn add_text(list: &mut Vec<String>, s: &String)
    ensures
        texts(final(list)@) == with_text(texts(old(list)@), s@),
{
    if !holds_text(list, s) {
        list.push(s.clone());
        assert(texts(list@) =~= texts(old(list)@).push(s@));
    }
}

/// A list and those texts of another one that it does not hold yet.
pub open spec fn with_texts(list: Seq<Seq<char>>, more: Seq<Seq<char>>) -> Seq<Seq<char>>
    decreases more.len(),
{
    if more.len() == 0 {
        list
    } else {
        with_text(with_texts(list, more.drop_last()), more.last())
    }
}

pub open spec fn lowercase_all(v: Seq<Seq<char>>) -> Seq<Seq<char>> {
    Seq::new(v.len(), |i: int| lowercase(v[i]))
}

/// The texts of a list in lower case.
pub(crate) fn lower_texts(list: &Vec<String>) -> (res: Vec<String>)
    ensures
        texts(res@) == lowercase_all(texts(list@)),
{
    let mut res: Vec<String> = Vec::new();
    let mut i: usize = 0;
    while i < list.len()
        invariant
            i <= list.len(),
            res.len() == i,
            forall|j: int| 0 <= j < i ==> (#[trigger] res[j])@ == lowercase(list[j]@),
        decreases list.len() - i,
    {
        res.push(to_lowercase(list[i].as_str()));
        i += 1;
    }
    assert(texts(res@) =~= lowercase_all(texts(list@)));
    res
}

pub(crate) fn add_texts(list: &mut Vec<String>, more: &Vec<String>)
    ensures
        texts(final(list)@) == with_texts(texts(old(list)@), texts(more@)),
{
    let ghost all = texts(more@);
    let mut i: usize = 0;
    assert(all.take(0) =~= Seq::<Seq<char>>::empty());
    while i < more.len()
        invariant
            i <= more.len(),
            all == texts(more@),
            texts(list@) == with_texts(texts(old(list)@), all.take(i as int)),
        decreases more.len() - i,
    {
        proof {
            assert(all.take(i + 1).drop_last() =~= all.take(i as int));
            assert(all.take(i + 1).last() == more[i as int]@);
        }
        add_text(list, &more[i]);
        i += 1;
    }
    assert(all.take(i as int) =~= all);
}

pub proof fn lemma_with_texts(list: Seq<Seq<char>>, more: Seq<Seq<char>>, s: Seq<char>)
    ensures
        with_texts(list, more).contains(s) <==> list.contains(s) || more.contains(s),
    decreases more.len(),
{
    if more.len() > 0 {
        let rest = more.drop_last();
        lemma_with_texts(list, rest, s);
        lemma_with_text(with_texts(list, rest), more.last(), s);
        assert(more =~= rest.push(more.last()));
        lemma_push_text(rest, more.last(), s);
    }
}

pub proof fn lemma_push_text(list: Seq<Seq<char>>, t: Seq<char>, s: Seq<char>)
    ensures
        list.push(t).contains(s) <==> list.contains(s) || t == s,
{
    let now = list.push(t);
    if list.contains(s) {
        let i = choose|i: int| 0 <= i < list.len() && list[i] == s;
        assert(now[i] == s);
    }
    if t == s {
        assert(now[list.len() as int] == s);
    }
    if now.contains(s) && t != s {
        let i = choose|i: int| 0 <= i < now.len() && now[i] == s;
        assert(list[i] == s);
    }
}

pub proof fn lemma_with_text(list: Seq<Seq<char>>, t: Seq<char>, s: Seq<char>)
    ensures
        with_text(list, t).contains(s) <==> list.contains(s) || t == s,
{
    lemma_push_text(list, t, s);
}

pub proof fn lemma_not_behind(a: Seq<char>, b: Seq<char>)
    ensures
        not_behind(a, b) || not_behind(b, a),
        not_behind(a, b) && not_behind(b, a) ==> a == b,
    decreases a.len(),
{
    if a.len() > 0 && b.len() > 0 && a[0] == b[0] {
        lemma_not_behind(a.skip(1), b.skip(1));
        if a.skip(1) == b.skip(1) {
            assert(a =~= seq![a[0]] + a.skip(1));
            assert(b =~= seq![b[0]] + b.skip(1));
        }
    } else if a.len() == 0 && b.len() == 0 {
        assert(a =~= b);
    }
}

/// Texts are ordered by the first character in which they differ, and a text stands in front of
/// those that it is the beginning of.
pub proof fn law_texts_are_ordered(a: Seq<char>, b: Seq<char>, k: int)
    requires
        0 <= k <= a.len(),
        k <= b.len(),
        forall|i: int| 0 <= i < k ==> #[trigger] a[i] == b[i],
    ensures
        k == a.len() ==> not_behind(a, b),
        k < a.len() && k == b.len() ==> !not_behind(a, b),
        k < a.len() && k < b.len() && a[k] < b[k] ==> not_behind(a, b),
        k < a.len() && k < b.len() && b[k] < a[k] ==> !not_behind(a, b),
    decreases k,
{
    if k > 0 {
        assert(a[0] == b[0]);
        let x = a.skip(1);
        let y = b.skip(1);
        assert forall|i: int| 0 <= i < k - 1 implies #[trigger] x[i] == y[i] by {
            assert(a[i + 1] == b[i + 1]);
        }
        law_texts_are_ordered(x, y, k - 1);
    }
}

/// Adding texts to a list keeps it as it begins, adds what is missing, and adds nothing that is
/// there: a list without repetitions stays one.
pub proof fn law_texts_are_added_once(list: Seq<Seq<char>>, more: Seq<Seq<char>>)
    ensures
        list.len() <= with_texts(list, more).len() <= list.len() + more.len(),
        with_texts(list, more).take(list.len() as int) == list,
        forall|s: Seq<char>| #[trigger]
            with_texts(list, more).contains(s) <==> list.contains(s) || more.contains(s),
        list.no_duplicates() ==> with_texts(list, more).no_duplicates(),
    decreases more.len(),
{
    assert forall|s: Seq<char>| #[trigger]
        with_texts(list, more).contains(s) <==> list.contains(s) || more.contains(s) by {
        lemma_with_texts(list, more, s);
    }
    if more.len() > 0 {
        let rest = with_texts(list, more.drop_last());
        law_texts_are_added_once(list, more.drop_last());
        let now = with_texts(list, more);
        if !rest.contains(more.last()) {
            assert(now.take(list.len() as int) =~= rest.take(list.len() as int));
            if list.no_duplicates() {
                assert forall|i: int, j: int| 0 <= i < now.len() && 0 <= j < now.len() && i
                    != j implies now[i] != now[j] by {
                    if i < rest.len() {
                        assert(rest.contains(rest[i]));
                    }
                    if j < rest.len() {
                        assert(rest.contains(rest[j]));
                    }
                }
            }
        }
    } else {
        assert(list.take(list.len() as int) =~= list);
    }
}

/// Texts are added in order: one more text stands behind all others, unless it is there already.
pub proof fn law_texts_are_added_in_order(
    list: Seq<Seq<char>>,
    more: Seq<Seq<char>>,
    s: Seq<char>,
)
    ensures
        with_texts(list, Seq::empty()) == list,
        with_texts(list, more.push(s)) == if list.contains(s) || more.contains(s) {
            with_texts(list, more)
        } else {
            with_texts(list, more).push(s)
        },
{
    assert(more.push(s).drop_last() =~= more);
    lemma_with_texts(list, more, s);
}

} // verus!
